//! Matrices made from a matrix: symmetric permutations and diagonal shifts.
use vstd::prelude::*;

use crate::csc;
use crate::graph;
use crate::ordering;
use crate::scalar::Scalar;

verus! {

/// All the values of `s`, added from left to right.
pub open spec fn merged<T: Scalar>(s: Seq<T>) -> T
    decreases s.len(),
{
    if s.len() <= 1 {
        s[0]
    } else {
        T::plus_spec(merged(s.drop_last()), s.last())
    }
}

/// The values that are stored for the nodes `u` and `v`.
pub open spec fn pair_values<T>(a: Seq<Seq<(int, T)>>, u: int, v: int) -> Seq<T> {
    if u <= v {
        csc::values_at(a[v], u)
    } else {
        csc::values_at(a[u], v)
    }
}

/// The column `col` with the sum of `vs` in row `j`; as it is where `vs` is empty.
pub open spec fn with_row<T: Scalar>(col: Seq<(int, T)>, j: int, vs: Seq<T>) -> Seq<(int, T)> {
    if vs.len() > 0 {
        col.push((j, merged(vs)))
    } else {
        col
    }
}

/// The rows below `m` of column `k` of the permuted matrix: the sum of what is stored for the
/// nodes `order[j]` and `order[k]`, in row `j`, the rows ascending.
pub open spec fn permuted_column<T: Scalar>(
    a: Seq<Seq<(int, T)>>,
    order: Seq<int>,
    k: int,
    m: int,
) -> Seq<(int, T)>
    decreases m,
{
    if m <= 0 {
        Seq::empty()
    } else {
        with_row(
            permuted_column(a, order, k, m - 1),
            m - 1,
            pair_values(a, order[m - 1], order[k]),
        )
    }
}

/// The symmetric matrix whose rows and columns are those of `a`, taken in the given order.
pub open spec fn permuted<T: Scalar>(a: Seq<Seq<(int, T)>>, order: Seq<int>) -> Seq<
    Seq<(int, T)>,
> {
    Seq::new(a.len(), |k: int| permuted_column(a, order, k, k + 1))
}

/// The matrix `a` with `shift` added to its diagonal: one more entry in each column.
pub open spec fn shifted<T>(a: Seq<Seq<(int, T)>>, shift: T) -> Seq<Seq<(int, T)>> {
    Seq::new(a.len(), |k: int| a[k].push((k, shift)))
}

/// Some value of the matrix is not finite.
pub open spec fn has_overflow<T: Scalar>(a: Seq<Seq<(int, T)>>) -> bool {
    exists|k: int, t: int|
        0 <= k < a.len() && 0 <= t < a[k].len() && !T::is_finite_spec((#[trigger] a[k][t]).1)
}

/// A list of tagged values as a column.
pub open spec fn tagged<T>(s: Seq<(usize, T)>) -> Seq<(int, T)> {
    s.map_values(|e: (usize, T)| (e.0 as int, e.1))
}

proof fn lemma_tagged_push<T>(s: Seq<(usize, T)>, e: (usize, T))
    ensures
        tagged(s.push(e)) == tagged(s).push((e.0 as int, e.1)),
{
    assert(tagged(s.push(e)) =~= tagged(s).push((e.0 as int, e.1)));
}

pub proof fn lemma_values_at_push<T>(col: Seq<(int, T)>, e: (int, T), j: int)
    ensures
        csc::values_at(col.push(e), j) == if e.0 == j {
            csc::values_at(col, j).push(e.1)
        } else {
            csc::values_at(col, j)
        },
{
    assert(col.push(e).drop_last() =~= col);
}

/// `pos` is the inverse of the permutation `order`.
pub(crate) open spec fn is_inverse(n: int, order: Seq<int>, pos: Seq<usize>) -> bool {
    &&& order.len() == n
    &&& pos.len() == n
    &&& forall|x: int| 0 <= x < n ==> 0 <= #[trigger] pos[x] < n && order[pos[x] as int] == x
    &&& forall|k: int| 0 <= k < n ==> 0 <= #[trigger] order[k] < n && pos[order[k]] == k
}

/// What is stored for `u` and `v` in the columns below `c` and at the indices `lo..p` of column
/// `c`.
spec fn pair_values_before<T>(
    a: Seq<Seq<(int, T)>>,
    c: int,
    part: Seq<(int, T)>,
    u: int,
    v: int,
) -> Seq<T> {
    let hi = if u <= v { v } else { u };
    let lo = if u <= v { u } else { v };
    if hi < c {
        csc::values_at(a[hi], lo)
    } else if hi == c {
        csc::values_at(part, lo)
    } else {
        Seq::empty()
    }
}

/// Lists the entries of the upper triangle by the row that they have in the permuted matrix, each
/// with its column there.
fn permuted_rows<T: Scalar>(
    n: usize,
    col_ptr: &[usize],
    row_idx: &[usize],
    values: &[T],
    pos: &Vec<usize>,
    Ghost(order): Ghost<Seq<int>>,
) -> (rows: Vec<Vec<(usize, T)>>)
    requires
        csc::is_csc(n as int, col_ptr@, row_idx@, values@.len() as int),
        is_inverse(n as int, order, pos@),
    ensures
        rows@.len() == n,
        forall|j: int, t: int|
            0 <= j < n && 0 <= t < rows@[j]@.len() ==> j <= (#[trigger] rows@[j]@[t]).0 < n,
        forall|j: int, k: int|
            0 <= j <= k < n ==> #[trigger] csc::values_at(tagged(rows@[j]@), k) == pair_values(
                csc::upper(n as int, col_ptr@, row_idx@, values@),
                order[j],
                order[k],
            ),
{
    let ghost a = csc::upper(n as int, col_ptr@, row_idx@, values@);
    let mut rows: Vec<Vec<(usize, T)>> = Vec::with_capacity(n);
    while rows.len() < n
        invariant
            rows@.len() <= n,
            forall|j: int| 0 <= j < rows@.len() ==> (#[trigger] rows@[j]@).len() == 0,
        decreases n - rows@.len(),
    {
        rows.push(Vec::new());
    }
    let mut c: usize = 0;
    proof {
        assert forall|j: int, k: int| 0 <= j <= k < n implies #[trigger] csc::values_at(
            tagged(rows@[j]@),
            k,
        ) == pair_values_before(a, 0, Seq::empty(), order[j], order[k]) by {}
    }
    while c < n
        invariant
            c <= n,
            csc::is_csc(n as int, col_ptr@, row_idx@, values@.len() as int),
            is_inverse(n as int, order, pos@),
            a == csc::upper(n as int, col_ptr@, row_idx@, values@),
            rows@.len() == n,
            forall|j: int, t: int|
                0 <= j < n && 0 <= t < rows@[j]@.len() ==> j <= (#[trigger] rows@[j]@[t]).0 < n,
            forall|j: int, k: int|
                0 <= j <= k < n ==> #[trigger] csc::values_at(tagged(rows@[j]@), k)
                    == pair_values_before(a, c as int, Seq::empty(), order[j], order[k]),
        decreases n - c,
    {
        let start: usize = col_ptr[c];
        let end: usize = col_ptr[c + 1];
        let at: usize = pos[c];
        proof {
            csc::lemma_column_starts(
                n as int,
                col_ptr@,
                row_idx@,
                values@.len() as int,
                c as int,
                c + 1,
            );
        }
        let mut p: usize = start;
        while p < end
            invariant
                c < n,
                csc::is_csc(n as int, col_ptr@, row_idx@, values@.len() as int),
                is_inverse(n as int, order, pos@),
                at == pos@[c as int],
                start <= p <= end <= values@.len(),
                rows@.len() == n,
                forall|j: int, t: int|
                    0 <= j < n && 0 <= t < rows@[j]@.len() ==> j <= (#[trigger] rows@[j]@[t]).0 < n,
                forall|j: int, k: int|
                    0 <= j <= k < n ==> #[trigger] csc::values_at(tagged(rows@[j]@), k)
                        == pair_values_before(
                        a,
                        c as int,
                        csc::column(row_idx@, values@, c as int, start as int, p as int),
                        order[j],
                        order[k],
                    ),
            decreases end - p,
        {
            let r: usize = row_idx[p];
            let ghost part = csc::column(row_idx@, values@, c as int, start as int, p as int);
            let ghost next = csc::column(row_idx@, values@, c as int, start as int, p + 1);
            if r <= c {
                let u: usize = pos[r];
                let (lo, hi): (usize, usize) = if u <= at {
                    (u, at)
                } else {
                    (at, u)
                };
                let ghost rows0 = rows@;
                let v: T = values[p];
                rows[lo].push((hi, v));
                proof {
                    assert(next == part.push((r as int, v)));
                    assert forall|j: int, t: int| 0 <= j < n && 0 <= t < rows@[j]@.len() implies j
                        <= (#[trigger] rows@[j]@[t]).0 < n by {
                        if j != lo {
                            assert(rows@[j] == rows0[j]);
                            assert(rows@[j]@[t] == rows0[j]@[t]);
                        } else if t < rows0[j]@.len() {
                            assert(rows@[j]@[t] == rows0[j]@[t]);
                        }
                    }
                    assert forall|j: int, k: int| 0 <= j <= k < n implies #[trigger] csc::values_at(
                        tagged(rows@[j]@),
                        k,
                    ) == pair_values_before(a, c as int, next, order[j], order[k]) by {
                        assert(csc::values_at(tagged(rows0[j]@), k) == pair_values_before(
                            a,
                            c as int,
                            part,
                            order[j],
                            order[k],
                        ));
                        let (x, z) = if order[j] <= order[k] {
                            (order[j], order[k])
                        } else {
                            (order[k], order[j])
                        };
                        lemma_values_at_push(part, (r as int, v), x);
                        lemma_tagged_push(rows0[lo as int]@, (hi, v));
                        lemma_values_at_push(tagged(rows0[lo as int]@), (hi as int, v), k);
                        if j != lo {
                            assert(rows@[j] == rows0[j]);
                        }
                        assert(pos@[order[j]] == j && pos@[order[k]] == k);
                    }
                }
            } else {
                assert(next == part);
            }
            p = p + 1;
        }
        proof {
            assert forall|j: int, k: int| 0 <= j <= k < n implies #[trigger] csc::values_at(
                tagged(rows@[j]@),
                k,
            ) == pair_values_before(a, c + 1, Seq::empty(), order[j], order[k]) by {
                assert(a[c as int] == csc::column(
                    row_idx@,
                    values@,
                    c as int,
                    start as int,
                    p as int,
                ));
            }
        }
        c = c + 1;
    }
    rows
}

proof fn lemma_merged_push<T: Scalar>(s: Seq<T>, v: T)
    ensures
        merged(s.push(v)) == if s.len() == 0 {
            v
        } else {
            T::plus_spec(merged(s), v)
        },
{
    assert(s.push(v).drop_last() =~= s);
}

pub proof fn lemma_permuted_column_rows<T: Scalar>(
    a: Seq<Seq<(int, T)>>,
    order: Seq<int>,
    k: int,
    m: int,
)
    ensures
        forall|t: int|
            0 <= t < permuted_column(a, order, k, m).len() ==> 0 <= (#[trigger] permuted_column(
                a,
                order,
                k,
                m,
            )[t]).0 < m,
    decreases m,
{
    if m > 0 {
        lemma_permuted_column_rows(a, order, k, m - 1);
        let rest = permuted_column(a, order, k, m - 1);
        let col = permuted_column(a, order, k, m);
        assert forall|t: int| 0 <= t < col.len() implies 0 <= (#[trigger] col[t]).0 < m by {
            if t < rest.len() {
                assert(col[t] == rest[t]);
            }
        }
    }
}

/// Gathers the columns of the permuted matrix from its rows; entries of one place are summed.
fn permuted_columns<T: Scalar>(
    n: usize,
    rows: &Vec<Vec<(usize, T)>>,
    Ghost(a): Ghost<Seq<Seq<(int, T)>>>,
    Ghost(order): Ghost<Seq<int>>,
) -> (cols: Vec<Vec<(usize, T)>>)
    requires
        rows@.len() == n,
        a.len() == n,
        forall|j: int, t: int|
            0 <= j < n && 0 <= t < rows@[j]@.len() ==> j <= (#[trigger] rows@[j]@[t]).0 < n,
        forall|j: int, k: int|
            0 <= j <= k < n ==> #[trigger] csc::values_at(tagged(rows@[j]@), k) == pair_values(
                a,
                order[j],
                order[k],
            ),
    ensures
        cols@.len() == n,
        forall|k: int| 0 <= k < n ==> tagged(#[trigger] cols@[k]@) == permuted(a, order)[k],
{
    let mut cols: Vec<Vec<(usize, T)>> = Vec::with_capacity(n);
    while cols.len() < n
        invariant
            cols@.len() <= n,
            forall|j: int| 0 <= j < cols@.len() ==> (#[trigger] cols@[j]@).len() == 0,
        decreases n - cols@.len(),
    {
        cols.push(Vec::new());
    }
    let mut j: usize = 0;
    proof {
        assert forall|k: int| 0 <= k < n implies tagged(#[trigger] cols@[k]@) == permuted_column(
            a,
            order,
            k,
            0,
        ) by {
            assert(tagged(cols@[k]@) =~= Seq::<(int, T)>::empty());
        }
    }
    while j < n
        invariant
            j <= n,
            rows@.len() == n,
            a.len() == n,
            forall|j: int, t: int|
                0 <= j < n && 0 <= t < rows@[j]@.len() ==> j <= (#[trigger] rows@[j]@[t]).0 < n,
            forall|j: int, k: int|
                0 <= j <= k < n ==> #[trigger] csc::values_at(tagged(rows@[j]@), k) == pair_values(
                    a,
                    order[j],
                    order[k],
                ),
            cols@.len() == n,
            forall|k: int|
                0 <= k < n ==> tagged(#[trigger] cols@[k]@) == permuted_column(
                    a,
                    order,
                    k,
                    if j <= k {
                        j as int
                    } else {
                        k + 1
                    },
                ),
        decreases n - j,
    {
        let ghost list = rows@[j as int]@;
        let mut q: usize = 0;
        proof {
            assert forall|k: int| 0 <= k < n implies tagged(#[trigger] cols@[k]@) == (if j <= k {
                with_row(
                    permuted_column(a, order, k, j as int),
                    j as int,
                    csc::values_at(tagged(list.take(0)), k),
                )
            } else {
                permuted_column(a, order, k, k + 1)
            }) by {
                assert(tagged(list.take(0)) =~= Seq::<(int, T)>::empty());
            }
        }
        while q < rows[j].len()
            invariant
                j < n,
                rows@.len() == n,
                list == rows@[j as int]@,
                q <= list.len(),
                forall|j: int, t: int|
                    0 <= j < n && 0 <= t < rows@[j]@.len() ==> j <= (#[trigger] rows@[j]@[t]).0 < n,
                cols@.len() == n,
                forall|k: int|
                    0 <= k < n ==> tagged(#[trigger] cols@[k]@) == (if j <= k {
                        with_row(
                            permuted_column(a, order, k, j as int),
                            j as int,
                            csc::values_at(tagged(list.take(q as int)), k),
                        )
                    } else {
                        permuted_column(a, order, k, k + 1)
                    }),
            decreases list.len() - q,
        {
            let (k, v): (usize, T) = rows[j][q];
            let ghost cols0 = cols@;
            let ghost base = permuted_column(a, order, k as int, j as int);
            let ghost vs = csc::values_at(tagged(list.take(q as int)), k as int);
            proof {
                assert(rows@[j as int]@[q as int] == list[q as int]);
                assert(list.take(q + 1) =~= list.take(q as int).push((k, v)));
                lemma_tagged_push(list.take(q as int), (k, v));
                lemma_permuted_column_rows(a, order, k as int, j as int);
                lemma_merged_push(vs, v);
                lemma_values_at_push(tagged(list.take(q as int)), (k as int, v), k as int);
                assert(tagged(cols@[k as int]@) == with_row(base, j as int, vs));
            }
            let len: usize = cols[k].len();
            let mut joins: bool = false;
            if len > 0 {
                assert(tagged(cols@[k as int]@)[len - 1].0 == cols@[k as int]@[len - 1].0);
                joins = cols[k][len - 1].0 == j;
            }
            proof {
                assert(joins <==> vs.len() > 0) by {
                    if vs.len() == 0 && len > 0 {
                        assert(base[len - 1].0 < j);
                    }
                }
            }
            if joins {
                let w: T = cols[k][len - 1].1;
                let sum: T = T::plus(w, v);
                assert(tagged(cols@[k as int]@)[len - 1].1 == w);
                cols[k].set(len - 1, (j, sum));
                proof {
                    let c0 = cols0[k as int]@;
                    assert(cols@[k as int]@ == c0.update(len - 1, (j, sum)));
                    assert(tagged(c0) == base.push((j as int, merged(vs))));
                    assert(tagged(c0).len() == c0.len());
                    assert forall|t: int| 0 <= t < base.len() implies tagged(cols@[k as int]@)[t]
                        == base[t] by {
                        assert(tagged(c0)[t] == base[t]);
                    }
                    assert(tagged(cols@[k as int]@) =~= base.push((j as int, sum)));
                }
            } else {
                cols[k].push((j, v));
                proof {
                    lemma_tagged_push(cols0[k as int]@, (j, v));
                }
            }
            proof {
                assert forall|w: int| 0 <= w < n implies tagged(#[trigger] cols@[w]@) == (if j <= w {
                    with_row(
                        permuted_column(a, order, w, j as int),
                        j as int,
                        csc::values_at(tagged(list.take(q + 1)), w),
                    )
                } else {
                    permuted_column(a, order, w, w + 1)
                }) by {
                    lemma_values_at_push(tagged(list.take(q as int)), (k as int, v), w);
                    if w != k {
                        assert(cols@[w] == cols0[w]);
                    }
                }
            }
            q = q + 1;
        }
        proof {
            assert(list.take(q as int) =~= list);
            assert forall|k: int| 0 <= k < n implies tagged(#[trigger] cols@[k]@)
                == permuted_column(
                a,
                order,
                k,
                if j + 1 <= k {
                    j + 1
                } else {
                    k + 1
                },
            ) by {
                if j <= k {
                    assert(csc::values_at(tagged(rows@[j as int]@), k) == pair_values(
                        a,
                        order[j as int],
                        order[k],
                    ));
                }
            }
        }
        j = j + 1;
    }
    cols
}

/// Reading a range whose rows are all in the upper triangle gives all of its entries.
proof fn lemma_column_of_range<T>(
    row_idx: Seq<usize>,
    values: Seq<T>,
    k: int,
    lo: int,
    hi: int,
    s: Seq<(usize, T)>,
)
    requires
        lo <= hi,
        s.len() == hi - lo,
        forall|t: int|
            0 <= t < s.len() ==> (#[trigger] s[t]).0 <= k && row_idx[lo + t] == s[t].0 && values[lo
                + t] == s[t].1,
    ensures
        csc::column(row_idx, values, k, lo, hi) == tagged(s),
    decreases hi - lo,
{
    if lo < hi {
        let init = s.drop_last();
        assert forall|t: int| 0 <= t < init.len() implies (#[trigger] init[t]).0 <= k && row_idx[lo
            + t] == init[t].0 && values[lo + t] == init[t].1 by {
            assert(init[t] == s[t]);
        }
        lemma_column_of_range(row_idx, values, k, lo, hi - 1, init);
        let e = s.last();
        assert(s[hi - lo - 1] == e);
        assert(s =~= init.push(e));
        lemma_tagged_push(init, e);
    } else {
        assert(tagged(s) =~= Seq::<(int, T)>::empty());
    }
}

/// Columns that are read from the same entries are the same.
pub proof fn lemma_column_same<T>(
    ri: Seq<usize>,
    vx: Seq<T>,
    rj: Seq<usize>,
    vy: Seq<T>,
    k: int,
    lo: int,
    hi: int,
)
    requires
        forall|p: int| lo <= p < hi ==> #[trigger] ri[p] == rj[p],
        forall|p: int| lo <= p < hi ==> #[trigger] vx[p] == vy[p],
    ensures
        csc::column(ri, vx, k, lo, hi) == csc::column(rj, vy, k, lo, hi),
    decreases hi - lo,
{
    if lo < hi {
        lemma_column_same(ri, vx, rj, vy, k, lo, hi - 1);
        assert(ri[hi - 1] == rj[hi - 1]);
        assert(vx[hi - 1] == vy[hi - 1]);
    }
}

/// A matrix in compressed columns.
pub struct Csc<T> {
    /// Where each column starts, and the number of entries at the end.
    pub col_ptr: Vec<usize>,
    /// The row of each entry.
    pub row_idx: Vec<usize>,
    /// The value of each entry.
    pub values: Vec<T>,
}

/// Writes columns of the upper triangle one behind the other.
fn compress<T: Copy>(n: usize, cols: &Vec<Vec<(usize, T)>>, Ghost(b): Ghost<Seq<Seq<(int, T)>>>) -> (m: Csc<T>)
    requires
        n < usize::MAX,
        cols@.len() == n,
        b.len() == n,
        csc::is_upper(b),
        forall|k: int| 0 <= k < n ==> tagged(#[trigger] cols@[k]@) == b[k],
    ensures
        csc::is_csc(n as int, m.col_ptr@, m.row_idx@, m.values@.len() as int),
        csc::upper(n as int, m.col_ptr@, m.row_idx@, m.values@) == b,
        m.col_ptr@[0] == 0,
        forall|k: int|
            0 <= k < n ==> b[k].len() == m.col_ptr@[k + 1] - #[trigger] m.col_ptr@[k],
        forall|k: int, t: int|
            0 <= k < n && 0 <= t < b[k].len() ==> m.values@[m.col_ptr@[k] + t] == (
            #[trigger] b[k][t]).1,
{
    let mut cp: Vec<usize> = Vec::with_capacity(n + 1);
    let mut ri: Vec<usize> = Vec::new();
    let mut vx: Vec<T> = Vec::new();
    cp.push(0);
    let mut k: usize = 0;
    while k < n
        invariant
            k <= n,
            cols@.len() == n,
            b.len() == n,
            csc::is_upper(b),
            forall|k: int| 0 <= k < n ==> tagged(#[trigger] cols@[k]@) == b[k],
            cp@.len() == k + 1,
            cp@[0] == 0,
            cp@[k as int] == ri@.len(),
            ri@.len() == vx@.len(),
            forall|j: int| 0 <= j < k ==> #[trigger] cp@[j] <= cp@[j + 1] <= ri@.len(),
            forall|p: int| 0 <= p < ri@.len() ==> #[trigger] ri@[p] < n,
            forall|j: int| 0 <= j < k ==> b[j].len() == cp@[j + 1] - #[trigger] cp@[j],
            forall|j: int, t: int|
                0 <= j < k && 0 <= t < b[j].len() ==> vx@[cp@[j] + t] == (#[trigger] b[j][t]).1,
            forall|j: int|
                0 <= j < k ==> csc::column(
                    ri@,
                    vx@,
                    j,
                    #[trigger] cp@[j] as int,
                    cp@[j + 1] as int,
                ) == b[j],
        decreases n - k,
    {
        let ghost ri0 = ri@;
        let ghost vx0 = vx@;
        let ghost start = ri0.len() as int;
        let ghost s = cols@[k as int]@;
        proof {
            assert forall|t: int| 0 <= t < s.len() implies (#[trigger] s[t]).0 <= k by {
                assert(tagged(s)[t] == b[k as int][t]);
            }
        }
        let mut t: usize = 0;
        while t < cols[k].len()
            invariant
                k < n,
                cols@.len() == n,
                s == cols@[k as int]@,
                t <= s.len(),
                forall|t: int| 0 <= t < s.len() ==> (#[trigger] s[t]).0 <= k,
                start == ri0.len(),
                start == vx0.len(),
                ri@.len() == start + t,
                vx@.len() == start + t,
                forall|p: int| 0 <= p < start ==> #[trigger] ri@[p] == ri0[p],
                forall|p: int| 0 <= p < start ==> #[trigger] vx@[p] == vx0[p],
                forall|q: int|
                    0 <= q < t ==> ri@[start + q] == (#[trigger] s[q]).0 && vx@[start + q]
                        == s[q].1,
                forall|p: int| start <= p < ri@.len() ==> #[trigger] ri@[p] <= k,
            decreases s.len() - t,
        {
            let (r, v): (usize, T) = cols[k][t];
            assert(s[t as int] == (r, v));
            ri.push(r);
            vx.push(v);
            t = t + 1;
        }
        let ghost cp0 = cp@;
        cp.push(ri.len());
        proof {
            lemma_column_of_range(ri@, vx@, k as int, start, ri@.len() as int, s);
            assert forall|j: int| 0 <= j < k + 1 implies csc::column(
                ri@,
                vx@,
                j,
                #[trigger] cp@[j] as int,
                cp@[j + 1] as int,
            ) == b[j] by {
                if j < k {
                    assert(cp@[j] == cp0[j] && cp@[j + 1] == cp0[j + 1]);
                    lemma_column_same(ri0, vx0, ri@, vx@, j, cp@[j] as int, cp@[j + 1] as int);
                }
            }
            assert(b[k as int].len() == tagged(s).len());
            assert forall|j: int| 0 <= j < k + 1 implies b[j].len() == cp@[j + 1]
                - #[trigger] cp@[j] by {
                if j < k {
                    assert(cp@[j] == cp0[j] && cp@[j + 1] == cp0[j + 1]);
                }
            }
            assert forall|j: int, t: int| 0 <= j < k + 1 && 0 <= t < b[j].len() implies vx@[cp@[j]
                + t] == (#[trigger] b[j][t]).1 by {
                if j < k {
                    assert(cp@[j] == cp0[j] && cp@[j + 1] == cp0[j + 1]);
                    assert(b[j].len() == cp0[j + 1] - cp0[j]);
                    assert(vx@[cp@[j] + t] == vx0[cp@[j] + t]);
                } else {
                    assert(tagged(s)[t] == b[j][t]);
                    assert(vx@[start + t] == s[t].1);
                }
            }
            assert forall|p: int| 0 <= p < ri@.len() implies #[trigger] ri@[p] < n by {
                if p < start {
                    assert(ri@[p] == ri0[p]);
                }
            }
        }
        k = k + 1;
    }
    proof {
        assert(csc::upper(n as int, cp@, ri@, vx@) =~= b);
    }
    Csc { col_ptr: cp, row_idx: ri, values: vx }
}

/// Every index lies in some column.
pub proof fn lemma_find_column(n: int, col_ptr: Seq<usize>, k: int, p: int) -> (j: int)
    requires
        0 <= k <= n < col_ptr.len(),
        col_ptr[0] == 0,
        0 <= p < col_ptr[k],
    ensures
        0 <= j < k,
        col_ptr[j] <= p < col_ptr[j + 1],
    decreases k,
{
    if p < col_ptr[k - 1] {
        lemma_find_column(n, col_ptr, k - 1, p)
    } else {
        k - 1
    }
}

/// Nothing is wrong with compressed columns but that a value may not be finite.
proof fn lemma_compressed_defect<T: Scalar>(n: int, m: Csc<T>, b: Seq<Seq<(int, T)>>)
    requires
        csc::is_csc(n, m.col_ptr@, m.row_idx@, m.values@.len() as int),
        b.len() == n,
        m.col_ptr@[0] == 0,
        forall|k: int|
            0 <= k < n ==> b[k].len() == m.col_ptr@[k + 1] - #[trigger] m.col_ptr@[k],
        forall|k: int, t: int|
            0 <= k < n && 0 <= t < b[k].len() ==> m.values@[m.col_ptr@[k] + t] == (
            #[trigger] b[k][t]).1,
    ensures
        csc::defect(n, m.col_ptr@, m.row_idx@, m.values@) == if has_overflow(b) {
            Some("values contain a non-finite entry (NaN or infinity)"@)
        } else {
            None
        },
{
    csc::lemma_defect_of_columns(n, m.col_ptr@, m.row_idx@, m.values@);
    if has_overflow(b) {
        let (k, t) = choose|k: int, t: int|
            0 <= k < b.len() && 0 <= t < b[k].len() && !T::is_finite_spec((#[trigger] b[k][t]).1);
        csc::lemma_column_starts(n, m.col_ptr@, m.row_idx@, m.values@.len() as int, k, k + 1);
        assert(b[k].len() == m.col_ptr@[k + 1] - m.col_ptr@[k]);
        assert(!T::is_finite_spec(m.values@[m.col_ptr@[k] + t]));
    }
    if csc::has_overflow(m.values@) {
        let p = choose|p: int|
            0 <= p < m.values@.len() && !T::is_finite_spec(#[trigger] m.values@[p]);
        let k = lemma_find_column(n, m.col_ptr@, n, p);
        assert(b[k].len() == m.col_ptr@[k + 1] - m.col_ptr@[k]);
        let t = p - m.col_ptr@[k];
        assert(m.values@[m.col_ptr@[k] + t] == b[k][t].1);
        assert(has_overflow(b));
    }
}

/// What is stored for the nodes `order[j]` and `order[k]` stands in row `j` of column `k` of the
/// permuted matrix.
pub proof fn lemma_permuted_values<T: Scalar>(
    a: Seq<Seq<(int, T)>>,
    order: Seq<int>,
    k: int,
    m: int,
    j: int,
)
    requires
        0 <= j,
    ensures
        csc::values_at(permuted_column(a, order, k, m), j) == if j < m
            && pair_values(a, order[j], order[k]).len() > 0 {
            seq![merged(pair_values(a, order[j], order[k]))]
        } else {
            Seq::empty()
        },
    decreases m,
{
    if m > 0 {
        lemma_permuted_values(a, order, k, m - 1, j);
        let rest = permuted_column(a, order, k, m - 1);
        let vs = pair_values(a, order[m - 1], order[k]);
        lemma_values_at_push(rest, (m - 1, merged(vs)), j);
        assert(Seq::<T>::empty().push(merged(vs)) =~= seq![merged(vs)]);
    }
}

pub proof fn lemma_permuted_is_upper<T: Scalar>(a: Seq<Seq<(int, T)>>, order: Seq<int>)
    ensures
        csc::is_upper(permuted(a, order)),
{
    let b = permuted(a, order);
    assert forall|k: int, t: int| 0 <= k < b.len() && 0 <= t < b[k].len() implies 0 <= (
    #[trigger] b[k][t]).0 <= k by {
        lemma_permuted_column_rows(a, order, k, k + 1);
    }
}

/// The inverse of a permutation; `None` where `order` is none.
pub(crate) fn invert(n: usize, order: &[usize]) -> (r: Option<Vec<usize>>)
    requires
        order@.len() == n,
    ensures
        r is Some <==> ordering::is_permutation(n as int, ordering::ints(order@)),
        r matches Some(pos) ==> is_inverse(n as int, ordering::ints(order@), pos@),
{
    let ghost s = ordering::ints(order@);
    let mut pos: Vec<usize> = vec![usize::MAX; n];
    let mut k: usize = 0;
    while k < n
        invariant
            k <= n,
            order@.len() == n,
            s == ordering::ints(order@),
            pos@.len() == n,
            forall|j: int| 0 <= j < k ==> #[trigger] order@[j] < n && pos@[order@[j] as int] == j,
            forall|x: int|
                0 <= x < n && #[trigger] pos@[x] != usize::MAX ==> pos@[x] < k
                    && order@[pos@[x] as int] == x,
        decreases n - k,
    {
        let x: usize = order[k];
        if x >= n || pos[x] != usize::MAX {
            proof {
                assert(s[k as int] == x);
                assert(s.contains(x as int));
                if x < n {
                    let j = pos@[x as int] as int;
                    assert(s[j] == x);
                }
            }
            return None;
        }
        pos.set(x, k);
        k = k + 1;
    }
    proof {
        assert(s.no_duplicates()) by {
            assert forall|t: int, w: int|
                0 <= t < s.len() && 0 <= w < s.len() && t != w implies s[t] != s[w] by {
                assert(s[t] == order@[t] && s[w] == order@[w]);
            }
        }
        lemma_distinct_is_permutation(n as int, s);
        assert forall|x: int| 0 <= x < n implies 0 <= #[trigger] pos@[x] < n && s[pos@[x] as int]
            == x by {
            assert(s.contains(x));
            let j = choose|j: int| 0 <= j < s.len() && s[j] == x;
            assert(order@[j] == x);
        }
        assert forall|j: int| 0 <= j < n implies 0 <= #[trigger] s[j] < n && pos@[s[j]] == j by {
            assert(order@[j] == s[j]);
        }
    }
    Some(pos)
}

/// Different numbers of `0..n` that are `n` in number are all of them.
pub proof fn lemma_distinct_is_permutation(n: int, s: Seq<int>)
    requires
        s.len() == n,
        s.no_duplicates(),
        forall|t: int| 0 <= t < n ==> 0 <= #[trigger] s[t] < n,
    ensures
        ordering::is_permutation(n, s),
{
    let p = |x: int| s.contains(x);
    assert forall|x: int| #[trigger] s.contains(x) <==> 0 <= x < n && p(x) by {
        if s.contains(x) {
            let t = choose|t: int| 0 <= t < s.len() && s[t] == x;
            assert(0 <= s[t] < n);
        }
    }
    graph::lemma_count_of_listing(n, p, s);
    assert forall|x: int| 0 <= x < n implies #[trigger] s.contains(x) by {
        graph::lemma_count_full(n, p, x);
        assert(p(x));
    }
}

/// The symmetric matrix whose rows and columns are those of the given one, taken in the order
/// whose inverse is `pos`. Rows ascend in each column, and entries of one place are summed.
pub(crate) fn permute<T: Scalar>(
    n: usize,
    col_ptr: &[usize],
    row_idx: &[usize],
    values: &[T],
    pos: &Vec<usize>,
    Ghost(order): Ghost<Seq<int>>,
) -> (m: Csc<T>)
    requires
        csc::is_csc(n as int, col_ptr@, row_idx@, values@.len() as int),
        is_inverse(n as int, order, pos@),
    ensures
        csc::is_csc(n as int, m.col_ptr@, m.row_idx@, m.values@.len() as int),
        csc::upper(n as int, m.col_ptr@, m.row_idx@, m.values@) == permuted(
            csc::upper(n as int, col_ptr@, row_idx@, values@),
            order,
        ),
        csc::defect(n as int, m.col_ptr@, m.row_idx@, m.values@) == (if has_overflow(
            permuted(csc::upper(n as int, col_ptr@, row_idx@, values@), order),
        ) {
            Some("values contain a non-finite entry (NaN or infinity)"@)
        } else {
            None
        }),
{
    let ghost a = csc::upper(n as int, col_ptr@, row_idx@, values@);
    let ghost b = permuted(a, order);
    assert(col_ptr.len() == n + 1);
    let rows = permuted_rows(n, col_ptr, row_idx, values, pos, Ghost(order));
    let cols = permuted_columns(n, &rows, Ghost(a), Ghost(order));
    proof {
        lemma_permuted_is_upper(a, order);
    }
    let m = compress(n, &cols, Ghost(b));
    proof {
        lemma_compressed_defect(n as int, m, b);
    }
    m
}

/// Copying the entries of a column to other indices keeps the column.
proof fn lemma_column_moved<T>(
    ri: Seq<usize>,
    vx: Seq<T>,
    rj: Seq<usize>,
    vy: Seq<T>,
    k: int,
    lo: int,
    at: int,
    len: int,
)
    requires
        forall|t: int| 0 <= t < len ==> ri[lo + t] == #[trigger] rj[at + t],
        forall|t: int| 0 <= t < len ==> vx[lo + t] == #[trigger] vy[at + t],
    ensures
        csc::column(ri, vx, k, lo, lo + len) == csc::column(rj, vy, k, at, at + len),
    decreases len,
{
    if len > 0 {
        lemma_column_moved(ri, vx, rj, vy, k, lo, at, len - 1);
        assert(rj[at + (len - 1)] == ri[lo + (len - 1)]);
        assert(vy[at + (len - 1)] == vx[lo + (len - 1)]);
    }
}

/// Column `k` of the compressed columns, moved to where it stands once every column before it has
/// one more entry, and `shift` appended to it on the diagonal.
pub(crate) open spec fn is_shifted_column<T>(
    col_ptr: Seq<usize>,
    row_idx: Seq<usize>,
    values: Seq<T>,
    shift: T,
    ri: Seq<usize>,
    vx: Seq<T>,
    k: int,
) -> bool {
    &&& forall|p: int|
        #![trigger row_idx[p]]
        #![trigger values[p]]
        col_ptr[k] <= p < col_ptr[k + 1] ==> ri[p - col_ptr[0] + k] == row_idx[p] && vx[p
            - col_ptr[0] + k] == values[p]
    &&& ri[col_ptr[k + 1] - col_ptr[0] + k] == k
    &&& vx[col_ptr[k + 1] - col_ptr[0] + k] == shift
}

/// The arrays of a shifted matrix describe the shifted matrix.
proof fn lemma_shifted_arrays<T: Scalar>(
    n: int,
    col_ptr: Seq<usize>,
    row_idx: Seq<usize>,
    values: Seq<T>,
    shift: T,
    cp: Seq<usize>,
    ri: Seq<usize>,
    vx: Seq<T>,
)
    requires
        csc::is_csc(n, col_ptr, row_idx, values.len() as int),
        cp.len() == n + 1,
        ri.len() == row_idx.len() - col_ptr[0] + n,
        vx.len() == ri.len(),
        forall|k: int| 0 <= k <= n ==> #[trigger] cp[k] == col_ptr[k] - col_ptr[0] + k,
        forall|k: int|
            0 <= k < n ==> #[trigger] is_shifted_column(
                col_ptr,
                row_idx,
                values,
                shift,
                ri,
                vx,
                k,
            ),
    ensures
        csc::is_csc(n, cp, ri, vx.len() as int),
        csc::upper(n, cp, ri, vx) == shifted(csc::upper(n, col_ptr, row_idx, values), shift),
        (forall|p: int| 0 <= p < values.len() ==> T::is_finite_spec(#[trigger] values[p]))
            ==> csc::defect(n, cp, ri, vx) == (if n == 0 || T::is_finite_spec(shift) {
            None
        } else {
            Some("values contain a non-finite entry (NaN or infinity)"@)
        }),
{
    let a = csc::upper(n, col_ptr, row_idx, values);
    let len = values.len() as int;
    assert forall|k: int| 0 <= k < n implies #[trigger] cp[k] <= cp[k + 1] by {
        assert(cp[k + 1] == col_ptr[k + 1] - col_ptr[0] + (k + 1));
        assert(col_ptr[k] <= col_ptr[k + 1]);
    }
    assert(cp[0] == 0 && cp[n] == ri.len());
    assert forall|q: int| 0 <= q < ri.len() implies #[trigger] ri[q] < n && (vx[q] == shift
        || exists|p: int| 0 <= p < len && #[trigger] values[p] == vx[q]) by {
        let k = lemma_find_column(n, cp, n, q);
        assert(is_shifted_column(col_ptr, row_idx, values, shift, ri, vx, k));
        assert(cp[k] == col_ptr[k] - col_ptr[0] + k);
        assert(cp[k + 1] == col_ptr[k + 1] - col_ptr[0] + (k + 1));
        csc::lemma_column_starts(n, col_ptr, row_idx, len, 0, k);
        csc::lemma_column_starts(n, col_ptr, row_idx, len, k + 1, n);
        let p = q + col_ptr[0] - k;
        if p < col_ptr[k + 1] {
            assert(row_idx[p] < n);
            assert(values[p] == vx[q]);
        }
    }
    assert forall|k: int| 0 <= k < n implies csc::upper(n, cp, ri, vx)[k] == #[trigger] a[k].push(
        (k, shift),
    ) by {
        let lo = col_ptr[k] as int;
        let hi = col_ptr[k + 1] as int;
        let at = cp[k] as int;
        assert(is_shifted_column(col_ptr, row_idx, values, shift, ri, vx, k));
        assert(at == lo - col_ptr[0] + k);
        assert(cp[k + 1] == hi - col_ptr[0] + (k + 1));
        assert(lo <= hi);
        assert forall|t: int| 0 <= t < hi - lo implies row_idx[lo + t] == #[trigger] ri[at + t] by {
            assert(ri[(lo + t) - col_ptr[0] + k] == row_idx[lo + t]);
        }
        assert forall|t: int| 0 <= t < hi - lo implies values[lo + t] == #[trigger] vx[at + t] by {
            assert(vx[(lo + t) - col_ptr[0] + k] == values[lo + t]);
        }
        lemma_column_moved(row_idx, values, ri, vx, k, lo, at, hi - lo);
        assert(ri[cp[k + 1] - 1] == k && vx[cp[k + 1] - 1] == shift);
    }
    assert(csc::upper(n, cp, ri, vx) =~= shifted(a, shift));
    csc::lemma_defect_of_columns(n, cp, ri, vx);
    if n > 0 && !T::is_finite_spec(shift) {
        assert(is_shifted_column(col_ptr, row_idx, values, shift, ri, vx, n - 1));
        csc::lemma_column_starts(n, col_ptr, row_idx, len, 0, n);
        assert(vx[ri.len() - 1] == shift);
        assert(csc::has_overflow(vx));
    }
    if csc::has_overflow(vx) {
        let q = choose|q: int| 0 <= q < vx.len() && !T::is_finite_spec(#[trigger] vx[q]);
        assert(ri[q] < n);
        if vx[q] != shift {
            let p = choose|p: int| 0 <= p < len && #[trigger] values[p] == vx[q];
            assert(!T::is_finite_spec(values[p]));
        }
    }
}

/// The matrix with `shift` added to its diagonal. One entry is appended to each column: entries of
/// one place are summed, so this is right whether or not the column stores a diagonal entry. All
/// the other entries are kept in their order, those below the diagonal too.
pub(crate) fn with_diagonal_shift<T: Scalar>(
    n: usize,
    col_ptr: &[usize],
    row_idx: &[usize],
    values: &[T],
    shift: T,
) -> (m: Csc<T>)
    requires
        csc::is_csc(n as int, col_ptr@, row_idx@, values@.len() as int),
    ensures
        csc::is_csc(n as int, m.col_ptr@, m.row_idx@, m.values@.len() as int),
        m.row_idx@.len() == row_idx@.len() - col_ptr@[0] + n,
        m.values@.len() == m.row_idx@.len(),
        forall|k: int| 0 <= k <= n ==> #[trigger] m.col_ptr@[k] == col_ptr@[k] - col_ptr@[0] + k,
        forall|k: int|
            0 <= k < n ==> #[trigger] is_shifted_column(
                col_ptr@,
                row_idx@,
                values@,
                shift,
                m.row_idx@,
                m.values@,
                k,
            ),
        csc::upper(n as int, m.col_ptr@, m.row_idx@, m.values@) == shifted(
            csc::upper(n as int, col_ptr@, row_idx@, values@),
            shift,
        ),
        (forall|p: int| 0 <= p < values@.len() ==> T::is_finite_spec(#[trigger] values@[p]))
            ==> csc::defect(n as int, m.col_ptr@, m.row_idx@, m.values@) == (if n == 0
            || T::is_finite_spec(shift) {
            None
        } else {
            Some("values contain a non-finite entry (NaN or infinity)"@)
        }),
{
    assert(col_ptr.len() == n + 1);
    let mut cp: Vec<usize> = Vec::with_capacity(n + 1);
    let mut ri: Vec<usize> = Vec::with_capacity(row_idx.len());
    let mut vx: Vec<T> = Vec::with_capacity(values.len());
    cp.push(0);
    let mut k: usize = 0;
    while k < n
        invariant
            k <= n,
            csc::is_csc(n as int, col_ptr@, row_idx@, values@.len() as int),
            cp@.len() == k + 1,
            ri@.len() == col_ptr@[k as int] - col_ptr@[0] + k,
            vx@.len() == ri@.len(),
            forall|j: int| 0 <= j <= k ==> #[trigger] cp@[j] == col_ptr@[j] - col_ptr@[0] + j,
            forall|j: int|
                0 <= j < k ==> #[trigger] is_shifted_column(
                    col_ptr@,
                    row_idx@,
                    values@,
                    shift,
                    ri@,
                    vx@,
                    j,
                ),
        decreases n - k,
    {
        let start: usize = col_ptr[k];
        let end: usize = col_ptr[k + 1];
        proof {
            csc::lemma_column_starts(
                n as int,
                col_ptr@,
                row_idx@,
                values@.len() as int,
                0,
                k as int,
            );
            csc::lemma_column_starts(
                n as int,
                col_ptr@,
                row_idx@,
                values@.len() as int,
                k as int,
                k + 1,
            );
        }
        let ghost ri0 = ri@;
        let ghost vx0 = vx@;
        let ghost at = ri0.len() as int;
        let mut p: usize = start;
        while p < end
            invariant
                start <= p <= end <= values@.len(),
                row_idx@.len() == values@.len(),
                at == ri0.len(),
                at == vx0.len(),
                ri@.len() == at + (p - start),
                vx@.len() == at + (p - start),
                forall|q: int| 0 <= q < at ==> #[trigger] ri@[q] == ri0[q],
                forall|q: int| 0 <= q < at ==> #[trigger] vx@[q] == vx0[q],
                forall|t: int| start <= t < p ==> #[trigger] row_idx@[t] == ri@[at + (t - start)],
                forall|t: int| start <= t < p ==> #[trigger] values@[t] == vx@[at + (t - start)],
            decreases end - p,
        {
            ri.push(row_idx[p]);
            vx.push(values[p]);
            p = p + 1;
        }
        ri.push(k);
        vx.push(shift);
        cp.push(ri.len());
        proof {
            assert forall|j: int| 0 <= j < k implies #[trigger] is_shifted_column(
                col_ptr@,
                row_idx@,
                values@,
                shift,
                ri@,
                vx@,
                j,
            ) by {
                assert(is_shifted_column(col_ptr@, row_idx@, values@, shift, ri0, vx0, j));
                csc::lemma_column_starts(
                    n as int,
                    col_ptr@,
                    row_idx@,
                    values@.len() as int,
                    0,
                    j,
                );
                csc::lemma_column_starts(
                    n as int,
                    col_ptr@,
                    row_idx@,
                    values@.len() as int,
                    j + 1,
                    k as int,
                );
            }
            assert(is_shifted_column(col_ptr@, row_idx@, values@, shift, ri@, vx@, k as int));
        }
        k = k + 1;
    }
    proof {
        lemma_shifted_arrays(n as int, col_ptr@, row_idx@, values@, shift, cp@, ri@, vx@);
    }
    Csc { col_ptr: cp, row_idx: ri, values: vx }
}

} // verus!
