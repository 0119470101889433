//! The factorization and its solves.
use vstd::prelude::*;

use crate::csc;
use crate::error::{Fault, LdltError};
use crate::graph;
use crate::laws::answers;
use crate::laws::breakdown;
use crate::laws::elimination;
use crate::model;
use crate::numeric;
use crate::ordering;
use crate::outcome;
use crate::outcome::Factorization;
use crate::permute;
use crate::scalar::Scalar;
use crate::symbolic;

verus! {

/// An `L D Lᵀ` factorization of a symmetric matrix.
///
/// `L` is stored by columns with an implicit unit diagonal (only the strictly lower entries are
/// kept); `D` is a signed diagonal.
#[derive(Debug, Clone)]
pub struct SparseLdlt<T> {
    n: usize,
    // Where each column of L starts, and the number of entries at the end.
    lp: Vec<usize>,
    // The row indices of the strictly lower entries of L, ascending in each column.
    li: Vec<usize>,
    // The values that belong to them.
    lx: Vec<T>,
    // The diagonal of D.
    d: Vec<T>,
    // Which row is eliminated at each step.
    order: Vec<usize>,
    // What was added to the diagonal.
    shift: T,
}

/// Index `p` is that of row `r` of column `i`.
spec fn is_entry_at(lp: Seq<usize>, li: Seq<usize>, r: int, i: int, p: int) -> bool {
    lp[i] <= p < lp[i + 1] && li[p] == r
}

/// The entry of `L` in row `r` of column `i`, where there is one.
spec fn stored_lower<T>(
    n: int,
    lp: Seq<usize>,
    li: Seq<usize>,
    lx: Seq<T>,
    r: int,
    i: int,
) -> Option<T> {
    if 0 <= i < n && exists|p: int| is_entry_at(lp, li, r, i, p) {
        Some(lx[choose|p: int| is_entry_at(lp, li, r, i, p)])
    } else {
        None
    }
}

impl<T: Scalar> SparseLdlt<T> {
    spec fn lower_at(self, r: int, i: int) -> Option<T> {
        stored_lower(self.n as int, self.lp@, self.li@, self.lx@, r, i)
    }

    /// The columns of `L` are well laid out, and the order is a permutation.
    pub closed spec fn wf(self) -> bool {
        &&& self.lp@.len() == self.n + 1
        &&& self.lp@[0] == 0
        &&& self.lp@[self.n as int] == self.li@.len()
        &&& self.n < usize::MAX
        &&& self.li@.len() == self.lx@.len()
        &&& self.d@.len() == self.n
        &&& forall|i: int| 0 <= i < self.n ==> #[trigger] self.lp@[i] <= self.lp@[i + 1]
        &&& forall|i: int, p: int|
            #![trigger self.lp@[i], self.li@[p]]
            0 <= i < self.n && self.lp@[i] <= p < self.lp@[i + 1] ==> i < self.li@[p] < self.n
        &&& forall|i: int, p: int, q: int|
            #![trigger self.lp@[i], self.li@[p], self.li@[q]]
            0 <= i < self.n && self.lp@[i] <= p < q < self.lp@[i + 1] ==> self.li@[p] < self.li@[q]
        &&& ordering::is_permutation(self.n as int, ordering::ints(self.order@))
    }
}

impl<T: Scalar> View for SparseLdlt<T> {
    type V = Factorization<T>;

    closed spec fn view(&self) -> Factorization<T> {
        Factorization {
            factors: model::Factors {
                lower: |r: int, i: int| self.lower_at(r, i),
                pivots: self.d@,
            },
            order: ordering::ints(self.order@),
            shift: self.shift,
        }
    }
}

/// The result of a factorization as the contracts see it.
pub open spec fn result_view<T: Scalar>(r: Result<SparseLdlt<T>, LdltError<T>>) -> Result<
    Factorization<T>,
    Fault<T>,
> {
    match r {
        Ok(f) => Ok(f@),
        Err(e) => Err(e@),
    }
}

/// A vector of `n` times the value `x`.
fn filled<T: Copy>(n: usize, x: T) -> (v: Vec<T>)
    ensures
        v@.len() == n,
        forall|i: int| 0 <= i < n ==> #[trigger] v@[i] == x,
{
    let mut v: Vec<T> = Vec::with_capacity(n);
    while v.len() < n
        invariant
            v@.len() <= n,
            forall|i: int| 0 <= i < v@.len() ==> #[trigger] v@[i] == x,
        decreases n - v@.len(),
    {
        v.push(x);
    }
    v
}

/// The numbers `0..n` in order.
fn ascending(n: usize) -> (v: Vec<usize>)
    ensures
        ordering::ints(v@) == outcome::identity(n as int),
        ordering::is_permutation(n as int, ordering::ints(v@)),
{
    let mut v: Vec<usize> = Vec::with_capacity(n);
    while v.len() < n
        invariant
            v@.len() <= n,
            forall|i: int| 0 <= i < v@.len() ==> #[trigger] v@[i] == i,
        decreases n - v@.len(),
    {
        let next: usize = v.len();
        v.push(next);
    }
    proof {
        assert(ordering::ints(v@) =~= outcome::identity(n as int));
        let s = ordering::ints(v@);
        assert forall|x: int| #[trigger] s.contains(x) <==> 0 <= x < n by {
            if 0 <= x < n {
                assert(s[x] == x);
            }
        }
    }
    v
}

/// Where the elimination runs past column `k`, its first stop is not before the next one.
proof fn lemma_first_break<T: Scalar>(a: Seq<Seq<(int, T)>>, strict: bool, j: int, k: int)
    requires
        0 <= j <= k <= a.len(),
        forall|i: int| j <= i < k ==> !#[trigger] outcome::breaks(a, strict, i),
    ensures
        outcome::first_break(a, strict, j) == outcome::first_break(a, strict, k),
    decreases k - j,
{
    if j < k {
        assert(!outcome::breaks(a, strict, j));
        lemma_first_break(a, strict, j + 1, k);
    }
}

impl<T: Scalar> SparseLdlt<T> {
    /// The stored columns of `L` are the entries that the layout describes.
    proof fn lemma_from_layout(self, a: Seq<Seq<(int, T)>>)
        requires
            a.len() == self.n,
            csc::is_upper(a),
            self.n < usize::MAX,
            self.lp@.len() == self.n + 1,
            forall|k: int|
                0 <= k <= self.n ==> #[trigger] self.lp@[k] == symbolic::fill_before(
                    self.n as int,
                    csc::graph_of(a),
                    k,
                ),
            numeric::is_layout(
                self.n as int,
                csc::graph_of(a),
                model::factors(a, self.n as int),
                self.n as int,
                self.lp@,
                self.li@,
                self.lx@,
            ),
            self.d@ == model::factors(a, self.n as int).pivots,
            ordering::is_permutation(self.n as int, ordering::ints(self.order@)),
        ensures
            self.wf(),
            self@.factors == model::factors(a, self.n as int),
    {
        let n = self.n as int;
        let g = csc::graph_of(a);
        let f = model::factors(a, n);
        csc::lemma_graph_of(a);
        model::lemma_factors_shape(a, n);
        assert forall|i: int, p: int|
            #![trigger self.lp@[i], self.li@[p]]
            0 <= i < n && self.lp@[i] <= p < self.lp@[i + 1] implies i < self.li@[p] < n && (
        f.lower)(self.li@[p] as int, i) == Some(self.lx@[p]) by {
            symbolic::lemma_rows_of(g, i, n);
            let q = p - self.lp@[i];
            assert(self.lp@[i + 1] == self.lp@[i] + graph::column_fill(g, i, n));
            assert(self.li@[self.lp@[i] + q] == symbolic::rows_of(g, i, n)[q]);
        }
        assert forall|i: int, p: int, q: int|
            #![trigger self.lp@[i], self.li@[p], self.li@[q]]
            0 <= i < n && self.lp@[i] <= p < q < self.lp@[i + 1] implies self.li@[p] < self.li@[q] by {
            symbolic::lemma_rows_of(g, i, n);
            assert(self.lp@[i + 1] == self.lp@[i] + graph::column_fill(g, i, n));
            let x = p - self.lp@[i];
            let z = q - self.lp@[i];
            assert(self.li@[self.lp@[i] + x] == symbolic::rows_of(g, i, n)[x]);
            assert(self.li@[self.lp@[i] + z] == symbolic::rows_of(g, i, n)[z]);
        }
        assert forall|i: int| 0 <= i < n implies #[trigger] self.lp@[i] <= self.lp@[i + 1] by {
            symbolic::lemma_slots(n, g, i, i + 1);
            symbolic::lemma_rows_of(g, i, n);
            assert(self.lp@[i + 1] == symbolic::fill_before(n, g, i + 1));
        }
        assert forall|r: int, i: int| #[trigger] self.lower_at(r, i) == (f.lower)(r, i) by {
            if 0 <= i < n && exists|p: int| is_entry_at(self.lp@, self.li@, r, i, p) {
                let p = choose|p: int| is_entry_at(self.lp@, self.li@, r, i, p);
                assert(self.lp@[i] <= p < self.lp@[i + 1]);
                assert((f.lower)(self.li@[p] as int, i) == Some(self.lx@[p]));
            } else if (f.lower)(r, i) is Some {
                graph::lemma_fills_bounds(n, g, i, r);
                symbolic::lemma_rows_of(g, i, n);
                assert(symbolic::rows_of(g, i, n).contains(r));
                let q = choose|q: int|
                    0 <= q < symbolic::rows_of(g, i, n).len() && symbolic::rows_of(g, i, n)[q] == r;
                assert(self.li@[self.lp@[i] + q] == symbolic::rows_of(g, i, n)[q]);
                assert(self.lp@[i + 1] == symbolic::fill_before(n, g, i + 1));
                assert(is_entry_at(self.lp@, self.li@, r, i, self.lp@[i] + q));
            }
        }
        assert(self@.factors.lower =~= f.lower);
    }

    /// The common body of the ways of factoring in the given order. Where `strict` holds, a
    /// destroyed pivot stops the elimination; otherwise its column is noted and the elimination
    /// goes on. The noted columns are handed out whether the elimination comes to its end or not.
    fn factor_inner(
        n: usize,
        col_ptr: &[usize],
        row_idx: &[usize],
        values: &[T],
        strict: bool,
    ) -> (r: (Result<Self, LdltError<T>>, Vec<usize>))
        ensures
            result_view(r.0) == (match csc::defect(n as int, col_ptr@, row_idx@, values@) {
                Some(m) => Err(Fault::InvalidInput(m)),
                None => outcome::factored(
                    csc::upper(n as int, col_ptr@, row_idx@, values@),
                    strict,
                ),
            }),
            r.0 matches Ok(f) ==> f.wf(),
            ordering::ints(r.1@) == (match csc::defect(n as int, col_ptr@, row_idx@, values@) {
                Some(m) => Seq::empty(),
                None => {
                    let a = csc::upper(n as int, col_ptr@, row_idx@, values@);
                    outcome::collapsed_columns(a, outcome::first_break(a, strict, 0))
                },
            }),
    {
        let mut collapsed: Vec<usize> = Vec::new();
        proof {
            assert(ordering::ints(collapsed@) =~= Seq::<int>::empty());
        }
        let found = csc::find_defect(n, col_ptr, row_idx, values);
        if let Some(m) = found {
            return (Err(LdltError::InvalidInput(m)), collapsed);
        }
        let ghost a = csc::upper(n as int, col_ptr@, row_idx@, values@);
        let ghost g = csc::graph_of(a);
        proof {
            csc::lemma_no_defect(n as int, col_ptr@, row_idx@, values@);
            csc::lemma_graph_of(a);
            csc::lemma_graph_of_upper(n as int, col_ptr@, row_idx@, values@);
            csc::lemma_upper_is_upper(n as int, col_ptr@, row_idx@, values@);
        }
        // The reference magnitude of the test for destroyed pivots.
        let scale: T = csc::diagonal_scale(n, col_ptr, row_idx, values);
        let zero: T = T::of_u64(0);
        let symbolic::Symbolic { parent, starts, rows } = symbolic::analyse(n, col_ptr, row_idx);
        let mut li: Vec<usize> = rows;
        let mut lx: Vec<T> = filled(li.len(), zero);
        let mut d: Vec<T> = Vec::with_capacity(n);
        let mut y: Vec<T> = filled(n, zero);
        let mut flag: Vec<usize> = filled(n, usize::MAX);
        let mut used: Vec<usize> = filled(n, 0usize);
        let mut stack: Vec<usize> = Vec::new();
        let mut k: usize = 0;
        while k < n
            invariant
                k <= n,
                csc::is_csc(n as int, col_ptr@, row_idx@, values@.len() as int),
                csc::defect(n as int, col_ptr@, row_idx@, values@) is None,
                a == csc::upper(n as int, col_ptr@, row_idx@, values@),
                a.len() == n,
                csc::is_upper(a),
                g == csc::graph_of(a),
                g == csc::pattern_graph(n as int, col_ptr@, row_idx@),
                scale == csc::scale(a, n as int),
                zero == T::of_u64_spec(0),
                parent@.len() == n,
                forall|i: int|
                    0 <= i < n ==> #[trigger] parent@[i] == symbolic::parent_index(n as int, g, i),
                starts@.len() == n + 1,
                forall|i: int|
                    0 <= i <= n ==> #[trigger] starts@[i] == symbolic::fill_before(n as int, g, i),
                numeric::is_layout(
                    n as int,
                    g,
                    model::factors(a, k as int),
                    k as int,
                    starts@,
                    li@,
                    lx@,
                ),
                d@ == model::factors(a, k as int).pivots,
                y@.len() == n,
                forall|i: int| 0 <= i < n ==> #[trigger] y@[i] == zero,
                flag@.len() == n,
                forall|i: int| 0 <= i < n ==> #[trigger] flag@[i] < k || flag@[i] == usize::MAX,
                used@.len() == n,
                forall|i: int|
                    0 <= i < n ==> #[trigger] used@[i] == graph::column_fill(g, i, k as int),
                forall|i: int| 0 <= i < k ==> !#[trigger] outcome::breaks(a, strict, i),
                ordering::ints(collapsed@) == outcome::collapsed_columns(a, k as int),
            decreases n - k,
        {
            numeric::scatter_column(
                n,
                k,
                col_ptr,
                row_idx,
                values,
                &parent,
                &mut flag,
                &mut y,
                &mut stack,
            );
            let dk: T = numeric::eliminate_row(
                n,
                k,
                &starts,
                &stack,
                &d,
                &mut li,
                &mut lx,
                &mut used,
                &mut y,
                Ghost(a),
            );
            d.push(dk);
            proof {
                model::lemma_factors_shape(a, k as int);
                model::lemma_factors_extend(a, k + 1, n as int);
                assert(outcome::pivot_at(a, k as int) == dk);
                lemma_first_break(a, strict, 0, k as int);
            }
            // A pivot that overflowed would run through the rows after it and into every solution.
            if T::is_zero(dk) || (strict && !T::is_finite(dk)) {
                assert(outcome::breaks(a, strict, k as int));
                return (Err(LdltError::ZeroPivot(k)), collapsed);
            }
            // The sign of a destroyed pivot is rounding noise, and the signs of the pivots are the
            // inertia: it is reported, never passed over.
            if T::less(zero, scale) && T::less(
                T::magnitude(dk),
                T::times(outcome::near_zero_pivot_rel(), scale),
            ) {
                if strict {
                    assert(outcome::breaks(a, strict, k as int));
                    return (
                        Err(
                            LdltError::NearZeroPivot {
                                column: k,
                                pivot: dk,
                                scale,
                                suggested_shift: T::times(
                                    T::root(outcome::near_zero_pivot_rel()),
                                    scale,
                                ),
                            },
                        ),
                        collapsed,
                    );
                }
                let ghost before = ordering::ints(collapsed@);
                collapsed.push(k);
                proof {
                    assert(ordering::ints(collapsed@) =~= before.push(k as int));
                }
            }
            k = k + 1;
        }
        proof {
            lemma_first_break(a, strict, 0, n as int);
        }
        let f = SparseLdlt { n, lp: starts, li, lx, d, order: ascending(n), shift: zero };
        proof {
            assert(f.lp.len() == n + 1);
            f.lemma_from_layout(a);
        }
        (Ok(f), collapsed)
    }

    /// Factors a symmetric `n x n` matrix supplied in compressed columns.
    ///
    /// - `col_ptr` has length `n + 1`; column `k` occupies `col_ptr[k]..col_ptr[k + 1]`.
    /// - `row_idx` and `values` are parallel arrays of the entries (any row order).
    ///
    /// Only the upper triangle (entries with row <= col) is read; a fully stored symmetric matrix
    /// works too. No fill-reducing ordering is applied: see [`SparseLdlt::factor_perm`].
    ///
    /// Every pivot of the result is finite. One that overflows is a breakdown at its column
    /// ([`LdltError::ZeroPivot`]).
    pub fn factor(n: usize, col_ptr: &[usize], row_idx: &[usize], values: &[T]) -> (r: Result<
        Self,
        LdltError<T>,
    >)
        ensures
            result_view(r) == (match csc::defect(n as int, col_ptr@, row_idx@, values@) {
                Some(m) => Err(Fault::InvalidInput(m)),
                None => outcome::factored(
                    csc::upper(n as int, col_ptr@, row_idx@, values@),
                    true,
                ),
            }),
            csc::defect(n as int, col_ptr@, row_idx@, values@) is None ==> elimination::is_verdict(
                csc::upper(n as int, col_ptr@, row_idx@, values@),
                true,
                result_view(r),
            ),
            r matches Ok(f) ==> f.wf(),
    {
        let (r, _) = Self::factor_inner(n, col_ptr, row_idx, values, true);
        proof {
            csc::lemma_upper_is_upper(n as int, col_ptr@, row_idx@, values@);
            elimination::law_verdict_is_given_for_the_pivots(
                csc::upper(n as int, col_ptr@, row_idx@, values@),
                true,
            );
        }
        r
    }

    /// Like [`SparseLdlt::factor`], but a destroyed pivot is noted and the factorization goes on,
    /// instead of stopping at the first one.
    ///
    /// This is for rank checks, not for solves: it names every column that collapsed. The factor
    /// that comes with the list is not fit to solve or to count signs with, since the pivot of
    /// each collapsed column is rounding noise, and dividing by it may overflow. Only an exact zero
    /// pivot still stops it.
    pub fn factor_reporting_collapse(
        n: usize,
        col_ptr: &[usize],
        row_idx: &[usize],
        values: &[T],
    ) -> (r: Result<(Self, Vec<usize>), LdltError<T>>)
        ensures
            match csc::defect(n as int, col_ptr@, row_idx@, values@) {
                Some(m) => r matches Err(e) && e@ == Fault::<T>::InvalidInput(m),
                None => {
                    let a = csc::upper(n as int, col_ptr@, row_idx@, values@);
                    match r {
                        Ok((f, collapsed)) => {
                            &&& f.wf()
                            &&& outcome::factored(a, false) == Ok::<_, Fault<T>>(f@)
                            &&& elimination::is_success(a, false, f@.factors)
                            &&& ordering::ints(collapsed@) == outcome::collapsed_columns(a, n as int)
                            &&& forall|i: int| #[trigger]
                                ordering::holds(collapsed@, i) <==> 0 <= i < n
                                    && elimination::is_destroyed(
                                    f@.factors.pivots[i],
                                    elimination::diagonal_magnitude(a),
                                )
                        },
                        Err(e) => outcome::factored(a, false) == Err::<Factorization<T>, _>(e@),
                    }
                },
            },
    {
        let (r, collapsed) = Self::factor_inner(n, col_ptr, row_idx, values, false);
        proof {
            let a = csc::upper(n as int, col_ptr@, row_idx@, values@);
            breakdown::lemma_first_break(a, false, 0);
            csc::lemma_upper_is_upper(n as int, col_ptr@, row_idx@, values@);
            elimination::law_verdict_is_given_for_the_pivots(a, false);
            elimination::law_reported_columns_have_destroyed_pivots(a, n as int);
            if csc::defect(n as int, col_ptr@, row_idx@, values@) is None && r is Ok {
                let columns = outcome::collapsed_columns(a, n as int);
                assert forall|i: int| #[trigger]
                    ordering::holds(collapsed@, i) <==> columns.contains(i) by {
                    if ordering::holds(collapsed@, i) {
                        let t = choose|t: int|
                            0 <= t < collapsed@.len() && #[trigger] collapsed@[t] == i;
                        assert(columns[t] == i);
                    }
                    if columns.contains(i) {
                        let t = choose|t: int| 0 <= t < columns.len() && columns[t] == i;
                        assert(collapsed@[t] == i);
                    }
                }
            }
        }
        match r {
            Ok(f) => Ok((f, collapsed)),
            Err(e) => Err(e),
        }
    }

    /// Factors `P A Pᵀ` for the symmetric permutation `P` given as `order`, where `order[k]` is the
    /// row that is eliminated k-th (such as the output of [`crate::amd`]).
    ///
    /// The factorization solves `A x = b` directly: the order is kept, and
    /// [`SparseLdlt::solve`] takes the right-hand side into it and the solution back.
    ///
    /// As everywhere, only the upper triangle of `A` is read.
    pub fn factor_perm(
        n: usize,
        col_ptr: &[usize],
        row_idx: &[usize],
        values: &[T],
        order: &[usize],
    ) -> (r: Result<Self, LdltError<T>>)
        ensures
            result_view(r) == (match outcome::order_defect(n as int, ordering::ints(order@)) {
                Some(m) => Err(Fault::InvalidInput(m)),
                None => match csc::defect(n as int, col_ptr@, row_idx@, values@) {
                    Some(m) => Err(Fault::InvalidInput(m)),
                    None => outcome::factored_in_order(
                        csc::upper(n as int, col_ptr@, row_idx@, values@),
                        ordering::ints(order@),
                    ),
                },
            }),
            outcome::order_defect(n as int, ordering::ints(order@)) is None && csc::defect(
                n as int,
                col_ptr@,
                row_idx@,
                values@,
            ) is None ==> answers::is_answer_in_order(
                csc::upper(n as int, col_ptr@, row_idx@, values@),
                ordering::ints(order@),
                result_view(r),
            ),
            r matches Ok(f) ==> f.wf(),
    {
        proof {
            answers::law_order_is_applied(
                csc::upper(n as int, col_ptr@, row_idx@, values@),
                ordering::ints(order@),
            );
        }
        if order.len() != n {
            return Err(LdltError::InvalidInput("order length must be n"));
        }
        let inverse = permute::invert(n, order);
        let pos = match inverse {
            Some(pos) => pos,
            None => {
                return Err(LdltError::InvalidInput("order must be a permutation of 0..n"));
            },
        };
        let found = csc::find_defect(n, col_ptr, row_idx, values);
        if let Some(m) = found {
            return Err(LdltError::InvalidInput(m));
        }
        proof {
            csc::lemma_no_defect(n as int, col_ptr@, row_idx@, values@);
        }
        let m = permute::permute(
            n,
            col_ptr,
            row_idx,
            values,
            &pos,
            Ghost(ordering::ints(order@)),
        );
        match Self::factor(n, m.col_ptr.as_slice(), m.row_idx.as_slice(), m.values.as_slice()) {
            Ok(f) => {
                let kept: Vec<usize> = copied(order);
                let SparseLdlt { n, lp, li, lx, d, order: _, shift } = f;
                let g = SparseLdlt { n, lp, li, lx, d, order: kept, shift };
                proof {
                    assert(g@.factors.lower =~= f@.factors.lower) by {
                        assert forall|r: int, i: int| #[trigger] g.lower_at(r, i) == f.lower_at(
                            r,
                            i,
                        ) by {}
                    }
                }
                Ok(g)
            },
            Err(e) => Err(e),
        }
    }
}

/// The order as the contracts see it.
pub open spec fn order_view(order: Option<&[usize]>) -> Option<Seq<int>> {
    match order {
        Some(o) => Some(ordering::ints(o@)),
        None => None,
    }
}

/// What is wrong with the order, where there is one.
pub open spec fn order_view_defect(n: int, order: Option<&[usize]>) -> Option<Seq<char>> {
    match order {
        Some(o) => outcome::order_defect(n, ordering::ints(o@)),
        None => None,
    }
}

impl<T: Scalar> SparseLdlt<T> {
    /// Factors in the given order, or in the order of the matrix.
    fn attempt(
        n: usize,
        col_ptr: &[usize],
        row_idx: &[usize],
        values: &[T],
        order: Option<&[usize]>,
    ) -> (r: Result<Self, LdltError<T>>)
        ensures
            result_view(r) == (match order_view_defect(n as int, order) {
                Some(m) => Err(Fault::InvalidInput(m)),
                None => match csc::defect(n as int, col_ptr@, row_idx@, values@) {
                    Some(m) => Err(Fault::InvalidInput(m)),
                    None => outcome::attempt(
                        csc::upper(n as int, col_ptr@, row_idx@, values@),
                        order_view(order),
                    ),
                },
            }),
            r matches Ok(f) ==> f.wf(),
    {
        match order {
            Some(o) => Self::factor_perm(n, col_ptr, row_idx, values, o),
            None => Self::factor(n, col_ptr, row_idx, values),
        }
    }

    /// The common body of the two ways of factoring that retry with a shift.
    fn shifted_retry(
        n: usize,
        col_ptr: &[usize],
        row_idx: &[usize],
        values: &[T],
        order: Option<&[usize]>,
    ) -> (r: Result<Self, LdltError<T>>)
        ensures
            result_view(r) == (match order_view_defect(n as int, order) {
                Some(m) => Err(Fault::InvalidInput(m)),
                None => match csc::defect(n as int, col_ptr@, row_idx@, values@) {
                    Some(m) => Err(Fault::InvalidInput(m)),
                    None => outcome::factored_with_retry(
                        csc::upper(n as int, col_ptr@, row_idx@, values@),
                        order_view(order),
                    ),
                },
            }),
            r matches Ok(f) ==> f.wf(),
    {
        let ghost a = csc::upper(n as int, col_ptr@, row_idx@, values@);
        let ghost ord = order_view(order);
        let mut last: LdltError<T> = match Self::attempt(n, col_ptr, row_idx, values, order) {
            Ok(f) => {
                return Ok(f);
            },
            Err(e) => e,
        };
        // Only a breakdown of a pivot is worth a retry: malformed input fails the same way however
        // the diagonal is nudged.
        let first: Option<T> = match &last {
            LdltError::NearZeroPivot { suggested_shift, .. } => Some(*suggested_shift),
            LdltError::ZeroPivot(_) => {
                proof {
                    csc::lemma_no_defect(n as int, col_ptr@, row_idx@, values@);
                }
                Some(
                    T::times(
                        T::root(outcome::near_zero_pivot_rel()),
                        csc::diagonal_scale(n, col_ptr, row_idx, values),
                    ),
                )
            },
            _ => None,
        };
        let mut shift: T = match first {
            Some(shift) => shift,
            None => {
                return Err(last);
            },
        };
        if !T::less(T::of_u64(0), shift) {
            return Err(last);
        }
        proof {
            lemma_breakdown_has_columns(a, ord);
        }
        let ghost goal = outcome::factored_with_retry(a, ord);
        let mut left: u64 = outcome::SHIFT_ATTEMPTS;
        while left > 0
            invariant
                n > 0,
                csc::defect(n as int, col_ptr@, row_idx@, values@) is None,
                order_view_defect(n as int, order) is None,
                a == csc::upper(n as int, col_ptr@, row_idx@, values@),
                ord == order_view(order),
                goal == outcome::factored_with_retry(a, ord),
                goal == outcome::retried(a, ord, shift, left as int, last@),
            decreases left,
        {
            proof {
                csc::lemma_no_defect(n as int, col_ptr@, row_idx@, values@);
            }
            let m = permute::with_diagonal_shift(n, col_ptr, row_idx, values, shift);
            let tried = Self::attempt(
                n,
                m.col_ptr.as_slice(),
                m.row_idx.as_slice(),
                m.values.as_slice(),
                order,
            );
            match tried {
                Ok(f) => {
                    let SparseLdlt { n, lp, li, lx, d, order: kept, shift: _ } = f;
                    let h = SparseLdlt { n, lp, li, lx, d, order: kept, shift };
                    proof {
                        assert forall|r: int, i: int| #[trigger] h.lower_at(r, i) == f.lower_at(
                            r,
                            i,
                        ) by {}
                        assert(h@.factors.lower =~= f@.factors.lower);
                    }
                    return Ok(h);
                },
                Err(e) => {
                    last = e;
                },
            }
            shift = T::times(shift, T::of_u64(outcome::SHIFT_GROWTH));
            left = left - 1;
        }
        Err(last)
    }

    /// Like [`SparseLdlt::factor`], but after a breakdown it retries with a positive diagonal shift
    /// instead of giving up.
    ///
    /// The matrix itself is tried first, so a well-conditioned matrix comes back with a
    /// [`SparseLdlt::shift`] of zero. After [`LdltError::ZeroPivot`] or
    /// [`LdltError::NearZeroPivot`] the matrix `A + shift * I` is factored, starting from the
    /// suggested shift and growing it eightfold with each attempt, at most 8 attempts; if none
    /// succeeds the last failure is returned.
    ///
    /// The result is a factorization of a nearby matrix, not of `A`: its inertia is that matrix's
    /// inertia, and a solve against it is a solve of the shifted system.
    pub fn factor_shifted(
        n: usize,
        col_ptr: &[usize],
        row_idx: &[usize],
        values: &[T],
    ) -> (r: Result<Self, LdltError<T>>)
        ensures
            result_view(r) == (match csc::defect(n as int, col_ptr@, row_idx@, values@) {
                Some(m) => Err(Fault::InvalidInput(m)),
                None => outcome::factored_with_retry(
                    csc::upper(n as int, col_ptr@, row_idx@, values@),
                    None,
                ),
            }),
            csc::defect(n as int, col_ptr@, row_idx@, values@) is None ==> answers::is_retry_answer(
                csc::upper(n as int, col_ptr@, row_idx@, values@),
                None,
                answers::once(csc::upper(n as int, col_ptr@, row_idx@, values@), None),
                result_view(r),
            ),
            r matches Ok(f) ==> f.wf(),
    {
        proof {
            csc::lemma_upper_is_upper(n as int, col_ptr@, row_idx@, values@);
            answers::law_retry_climbs_from_the_starting_shift(
                csc::upper(n as int, col_ptr@, row_idx@, values@),
                None,
            );
        }
        Self::shifted_retry(n, col_ptr, row_idx, values, None)
    }

    /// [`SparseLdlt::factor_perm`] with the retries of [`SparseLdlt::factor_shifted`]: a
    /// [`SparseLdlt::shift`] other than zero means that `A + shift * I` was factored, not `A`.
    pub fn factor_perm_shifted(
        n: usize,
        col_ptr: &[usize],
        row_idx: &[usize],
        values: &[T],
        order: &[usize],
    ) -> (r: Result<Self, LdltError<T>>)
        ensures
            result_view(r) == (match outcome::order_defect(n as int, ordering::ints(order@)) {
                Some(m) => Err(Fault::InvalidInput(m)),
                None => match csc::defect(n as int, col_ptr@, row_idx@, values@) {
                    Some(m) => Err(Fault::InvalidInput(m)),
                    None => outcome::factored_with_retry(
                        csc::upper(n as int, col_ptr@, row_idx@, values@),
                        Some(ordering::ints(order@)),
                    ),
                },
            }),
            outcome::order_defect(n as int, ordering::ints(order@)) is None && csc::defect(
                n as int,
                col_ptr@,
                row_idx@,
                values@,
            ) is None ==> answers::is_retry_answer(
                csc::upper(n as int, col_ptr@, row_idx@, values@),
                Some(ordering::ints(order@)),
                answers::once(
                    csc::upper(n as int, col_ptr@, row_idx@, values@),
                    Some(ordering::ints(order@)),
                ),
                result_view(r),
            ),
            r matches Ok(f) ==> f.wf(),
    {
        proof {
            csc::lemma_upper_is_upper(n as int, col_ptr@, row_idx@, values@);
            answers::law_retry_climbs_from_the_starting_shift(
                csc::upper(n as int, col_ptr@, row_idx@, values@),
                Some(ordering::ints(order@)),
            );
        }
        Self::shifted_retry(n, col_ptr, row_idx, values, Some(order))
    }
}

/// Only a matrix that has columns can break down.
proof fn lemma_breakdown_has_columns<T: Scalar>(
    a: Seq<Seq<(int, T)>>,
    order: Option<Seq<int>>,
)
    requires
        outcome::attempt(a, order) matches Err(e) && outcome::first_shift(a, e) is Some,
    ensures
        a.len() > 0,
{
}

/// A copy of the numbers of a slice.
fn copied(s: &[usize]) -> (v: Vec<usize>)
    ensures
        v@ == s@,
{
    let mut v: Vec<usize> = Vec::with_capacity(s.len());
    while v.len() < s.len()
        invariant
            v@.len() <= s@.len(),
            forall|i: int| 0 <= i < v@.len() ==> #[trigger] v@[i] == s@[i],
        decreases s@.len() - v@.len(),
    {
        let next: usize = s[v.len()];
        v.push(next);
    }
    proof {
        assert(v@ =~= s@);
    }
    v
}

impl<T: Scalar> SparseLdlt<T> {
    /// What the stored columns hold is what the contracts see.
    proof fn lemma_stored(self, i: int, p: int)
        requires
            self.wf(),
            0 <= i < self.n,
            self.lp@[i] <= p < self.lp@[i + 1],
        ensures
            self.lower_at(self.li@[p] as int, i) == Some(self.lx@[p]),
    {
        let r = self.li@[p] as int;
        assert(is_entry_at(self.lp@, self.li@, r, i, p));
        let q = choose|q: int| is_entry_at(self.lp@, self.li@, r, i, q);
        assert(self.li@[q] == self.li@[p]);
        assert(p == q);
    }

    /// An entry that the contracts see is stored.
    proof fn lemma_found(self, r: int, i: int) -> (p: int)
        requires
            self.wf(),
            self.lower_at(r, i) is Some,
        ensures
            0 <= i < r < self.n,
            self.lp@[i] <= p < self.lp@[i + 1],
            self.li@[p] == r,
    {
        let p = choose|p: int| is_entry_at(self.lp@, self.li@, r, i, p);
        assert(self.lp@[i] <= p && self.li@[p] == r);
        p
    }

    proof fn lemma_starts_ascend(self, i: int, k: int)
        requires
            self.wf(),
            0 <= i <= k <= self.n,
        ensures
            self.lp@[i] <= self.lp@[k],
        decreases k - i,
    {
        if i < k {
            self.lemma_starts_ascend(i + 1, k);
            assert(self.lp@[i] <= self.lp@[i + 1]);
        }
    }

    /// A column of `L` has as many entries as are stored for it.
    proof fn lemma_column_count(self, i: int)
        requires
            self.wf(),
            0 <= i < self.n,
        ensures
            outcome::column_count(self@.factors, i) == self.lp@[i + 1] - self.lp@[i],
    {
        let lo = self.lp@[i] as int;
        let hi = self.lp@[i + 1] as int;
        let s = Seq::new((hi - lo) as nat, |t: int| self.li@[lo + t] as int);
        let p = |r: int| (self@.factors.lower)(r, i) is Some;
        assert(lo <= hi);
        assert forall|x: int| #[trigger] s.contains(x) <==> 0 <= x < self.n && p(x) by {
            if s.contains(x) {
                let t = choose|t: int| 0 <= t < s.len() && s[t] == x;
                self.lemma_stored(i, lo + t);
                assert(self.li@[lo + t] == x);
                assert(self.lower_at(x, i) is Some);
            }
            if 0 <= x < self.n && p(x) {
                assert(self.lower_at(x, i) is Some);
                let q = self.lemma_found(x, i);
                assert(s[q - lo] == x);
            }
        }
        assert(s.no_duplicates()) by {
            assert forall|t: int, w: int|
                0 <= t < s.len() && 0 <= w < s.len() && t != w implies s[t] != s[w] by {
                assert(self.lp@[i] == lo);
                if t < w {
                    assert(self.li@[lo + t] < self.li@[lo + w]);
                } else {
                    assert(self.li@[lo + w] < self.li@[lo + t]);
                }
            }
        }
        graph::lemma_count_of_listing(self.n as int, p, s);
    }

    proof fn lemma_entry_count(self, k: int)
        requires
            self.wf(),
            0 <= k <= self.n,
        ensures
            outcome::entry_count(self@.factors, k) == self.lp@[k],
        decreases k,
    {
        if k > 0 {
            self.lemma_entry_count(k - 1);
            self.lemma_column_count(k - 1);
        }
    }

    /// The diagonal shift that was applied; zero for [`SparseLdlt::factor`] and
    /// [`SparseLdlt::factor_perm`], which never shift. Other than zero means that this is a
    /// factorization of `A + shift * I`, not of `A`.
    pub fn shift(&self) -> (r: T)
        ensures
            r == self@.shift,
    {
        self.shift
    }

    /// The order of the factored matrix.
    pub fn dim(&self) -> (r: usize)
        requires
            self.wf(),
        ensures
            r == self@.factors.pivots.len(),
    {
        self.n
    }

    /// The signed diagonal `D`. The number of its negative entries is the number of negative
    /// eigenvalues of the matrix.
    pub fn d(&self) -> (r: &[T])
        ensures
            r@ == self@.factors.pivots,
    {
        self.d.as_slice()
    }

    /// The number of stored entries of `L`, which are all off its diagonal.
    pub fn nnz(&self) -> (r: usize)
        requires
            self.wf(),
        ensures
            r == outcome::entry_count(self@.factors, self@.factors.pivots.len() as int),
            r == answers::total_length(self@.factors, self@.factors.pivots.len() as int),
    {
        proof {
            answers::law_counts_are_those_of_the_columns(self@.factors, self.n as int);
            self.lemma_entry_count(self.n as int);
        }
        self.lp[self.n]
    }

    /// The number of arithmetic operations of the factorization: for each column of `L` with `c`
    /// stored entries `c * c + 3 * c`.
    pub fn flops(&self) -> (r: u64)
        requires
            self.wf(),
            outcome::flop_count(self@.factors, self@.factors.pivots.len() as int) <= u64::MAX,
        ensures
            r == outcome::flop_count(self@.factors, self@.factors.pivots.len() as int),
            r == answers::total_work(self@.factors, self@.factors.pivots.len() as int),
    {
        let ghost f = self@.factors;
        proof {
            answers::law_counts_are_those_of_the_columns(self@.factors, self.n as int);
        }
        let mut total: u64 = 0;
        let mut j: usize = 0;
        while j < self.n
            invariant
                j <= self.n,
                self.wf(),
                f == self@.factors,
                f.pivots.len() == self.n,
                outcome::flop_count(f, self.n as int) <= u64::MAX,
                total == outcome::flop_count(f, j as int),
            decreases self.n - j,
        {
            proof {
                self.lemma_column_count(j as int);
                lemma_flops_ascend(f, j + 1, self.n as int);
                lemma_flops_ascend(f, 0, j as int);
                assert(self.lp@[j as int] <= self.lp@[j + 1]);
                let x = self.lp@[j + 1] - self.lp@[j as int];
                assert(x <= x * x + 3 * x) by (nonlinear_arith)
                    requires
                        x >= 0,
                ;
                assert(x * x <= x * x + 3 * x && 3 * x <= x * x + 3 * x) by (nonlinear_arith)
                    requires
                        x >= 0,
                ;
            }
            let c: u64 = (self.lp[j + 1] - self.lp[j]) as u64;
            total = total + (c * c + 3 * c);
            j = j + 1;
        }
        total
    }

    /// What [`SparseLdlt::flops`] returns, where it fits; `None` where it does not.
    pub fn checked_flops(&self) -> (r: Option<u64>)
        requires
            self.wf(),
        ensures
            match r {
                Some(t) => t == outcome::flop_count(
                    self@.factors,
                    self@.factors.pivots.len() as int,
                ),
                None => outcome::flop_count(self@.factors, self@.factors.pivots.len() as int)
                    > u64::MAX,
            },
    {
        let ghost f = self@.factors;
        let mut total: u64 = 0;
        let mut j: usize = 0;
        while j < self.n
            invariant
                j <= self.n,
                self.wf(),
                f == self@.factors,
                f.pivots.len() == self.n,
                total == outcome::flop_count(f, j as int),
            decreases self.n - j,
        {
            proof {
                self.lemma_column_count(j as int);
                lemma_flops_ascend(f, j + 1, self.n as int);
                assert(self.lp@[j as int] <= self.lp@[j + 1]);
            }
            let c: u64 = (self.lp[j + 1] - self.lp[j]) as u64;
            if c > 0xffff_ffff {
                assert(c * c > u64::MAX) by (nonlinear_arith)
                    requires
                        c > 0xffff_ffff,
                ;
                return None;
            }
            assert(c * c <= 0xffff_ffff * 0xffff_ffff) by (nonlinear_arith)
                requires
                    c <= 0xffff_ffff,
            ;
            let w: u128 = c as u128;
            let next: u128 = (total as u128) + (w * w + 3 * w);
            if next > u64::MAX as u128 {
                return None;
            }
            total = next as u64;
            j = j + 1;
        }
        Some(total)
    }
}

proof fn lemma_flops_ascend<T>(f: model::Factors<T>, j: int, k: int)
    requires
        0 <= j <= k,
    ensures
        0 <= outcome::flop_count(f, j) <= outcome::flop_count(f, k),
    decreases k,
{
    if k > 0 {
        let c = outcome::column_count(f, k - 1);
        graph::lemma_count_bounds(
            f.pivots.len() as int,
            |r: int| (f.lower)(r, k - 1) is Some,
        );
        assert(c * c + 3 * c >= 0) by (nonlinear_arith)
            requires
                c >= 0,
        ;
        if j < k {
            lemma_flops_ascend(f, j, k - 1);
        } else {
            lemma_flops_ascend(f, j - 1, k - 1);
        }
    }
}

/// Rows in which column `j` of `L` has no entry leave a backward substitution as it is.
proof fn lemma_backward_skip<T: Scalar>(
    f: model::Factors<T>,
    w: Seq<T>,
    j: int,
    lo: int,
    hi: int,
)
    requires
        j < lo <= hi <= w.len(),
        forall|r: int| lo <= r < hi ==> (#[trigger] (f.lower)(r, j)) is None,
    ensures
        outcome::backward(f, w, j, lo) == outcome::backward(f, w, j, hi),
    decreases hi - lo,
{
    if lo < hi {
        lemma_backward_skip(f, w, j, lo, hi - 1);
        assert((f.lower)(hi - 1, j) is None);
    }
}

impl<T: Scalar> SparseLdlt<T> {
    /// Solves `L z = b` in place.
    fn substitute_forward(&self, x: &mut Vec<T>)
        requires
            self.wf(),
            old(x)@.len() == self@.factors.pivots.len(),
        ensures
            final(x)@.len() == old(x)@.len(),
            forall|r: int|
                0 <= r < old(x)@.len() ==> #[trigger] final(x)@[r] == outcome::forward(
                    self@.factors,
                    old(x)@,
                    r,
                    r,
                ),
    {
        let ghost b = x@;
        let ghost f = self@.factors;
        let mut j: usize = 0;
        while j < self.n
            invariant
                self.wf(),
                j <= self.n,
                b.len() == self.n,
                x@.len() == self.n,
                f == self@.factors,
                forall|r: int|
                    0 <= r < self.n ==> #[trigger] x@[r] == outcome::forward(
                        f,
                        b,
                        r,
                        if r < j {
                            r
                        } else {
                            j as int
                        },
                    ),
            decreases self.n - j,
        {
            let xj: T = x[j];
            let ghost x0 = x@;
            let start: usize = self.lp[j];
            let end: usize = self.lp[j + 1];
            proof {
                self.lemma_starts_ascend(j + 1, self.n as int);
                assert(self.lp@[j as int] <= self.lp@[j + 1]);
                assert forall|p: int, q: int| start <= p < q < end implies #[trigger] self.li@[p]
                    != #[trigger] self.li@[q] by {
                    assert(self.lp@[j as int] == start);
                }
                assert forall|p: int| start <= p < end implies #[trigger] self.li@[p] < self.n by {
                    assert(self.lp@[j as int] == start);
                }
            }
            numeric::subtract_column(x, &self.li, &self.lx, start, end, xj);
            proof {
                assert forall|r: int| 0 <= r < self.n implies #[trigger] x@[r] == outcome::forward(
                    f,
                    b,
                    r,
                    if r < j + 1 {
                        r
                    } else {
                        j + 1
                    },
                ) by {
                    assert((f.lower)(r, j as int) == self.lower_at(r, j as int));
                    assert(x0[r] == outcome::forward(
                        f,
                        b,
                        r,
                        if r < j {
                            r
                        } else {
                            j as int
                        },
                    ));
                    assert(x0[j as int] == outcome::forward(f, b, j as int, j as int));
                    if self.lower_at(r, j as int) is Some {
                        let p = self.lemma_found(r, j as int);
                        self.lemma_stored(j as int, p);
                        assert(self.li@[p] == r);
                    } else {
                        assert forall|p: int| start <= p < end implies #[trigger] self.li@[p] != r by {
                            self.lemma_stored(j as int, p);
                        }
                    }
                }
            }
            j = j + 1;
        }
    }

    /// Divides by the pivots in place.
    fn divide(&self, x: &mut Vec<T>)
        requires
            self.wf(),
            old(x)@.len() == self@.factors.pivots.len(),
        ensures
            final(x)@.len() == old(x)@.len(),
            forall|k: int|
                0 <= k < old(x)@.len() ==> #[trigger] final(x)@[k] == T::over_spec(
                    old(x)@[k],
                    self@.factors.pivots[k],
                ),
    {
        let ghost z = x@;
        let mut j: usize = 0;
        while j < self.n
            invariant
                self.wf(),
                j <= self.n,
                z.len() == self.n,
                x@.len() == self.n,
                forall|k: int|
                    0 <= k < self.n ==> #[trigger] x@[k] == (if k < j {
                        T::over_spec(z[k], self.d@[k])
                    } else {
                        z[k]
                    }),
            decreases self.n - j,
        {
            let v: T = T::over(x[j], self.d[j]);
            x.set(j, v);
            j = j + 1;
        }
    }

    /// Solves `Lᵀ x = w` in place.
    fn substitute_backward(&self, x: &mut Vec<T>)
        requires
            self.wf(),
            old(x)@.len() == self@.factors.pivots.len(),
        ensures
            final(x)@.len() == old(x)@.len(),
            forall|k: int|
                0 <= k < old(x)@.len() ==> #[trigger] final(x)@[k] == outcome::backward(
                    self@.factors,
                    old(x)@,
                    k,
                    old(x)@.len() as int,
                ),
    {
        let ghost w = x@;
        let ghost f = self@.factors;
        let mut j: usize = self.n;
        while j > 0
            invariant
                self.wf(),
                j <= self.n,
                w.len() == self.n,
                x@.len() == self.n,
                f == self@.factors,
                forall|k: int|
                    0 <= k < self.n ==> #[trigger] x@[k] == (if k < j {
                        w[k]
                    } else {
                        outcome::backward(f, w, k, self.n as int)
                    }),
            decreases j,
        {
            j = j - 1;
            let mut acc: T = x[j];
            let start: usize = self.lp[j];
            let end: usize = self.lp[j + 1];
            let mut p: usize = start;
            // The first row that is not yet subtracted.
            let ghost mut next = j + 1;
            proof {
                self.lemma_starts_ascend(j + 1, self.n as int);
                assert(self.lp@[j as int] <= self.lp@[j + 1]);
            }
            while p < end
                invariant
                    self.wf(),
                    j < self.n,
                    w.len() == self.n,
                    x@.len() == self.n,
                    f == self@.factors,
                    start == self.lp@[j as int],
                    end == self.lp@[j + 1],
                    start <= p <= end <= self.li@.len(),
                    forall|k: int|
                        j < k < self.n ==> #[trigger] x@[k] == outcome::backward(
                            f,
                            w,
                            k,
                            self.n as int,
                        ),
                    j < next <= self.n,
                    forall|q: int| start <= q < p ==> #[trigger] self.li@[q] < next,
                    forall|q: int| p <= q < end ==> next <= #[trigger] self.li@[q],
                    acc == outcome::backward(f, w, j as int, next),
                decreases end - p,
            {
                let r: usize = self.li[p];
                proof {
                    assert(self.lp@[j as int] <= p);
                    self.lemma_stored(j as int, p as int);
                    assert((f.lower)(r as int, j as int) == self.lower_at(r as int, j as int));
                    assert forall|z: int| next <= z < r implies (#[trigger] (f.lower)(z, j as int)) is None by {
                        assert((f.lower)(z, j as int) == self.lower_at(z, j as int));
                        if self.lower_at(z, j as int) is Some {
                            let q = self.lemma_found(z, j as int);
                            if q < p {
                                assert(self.li@[q] < next);
                            } else if q > p {
                                assert(self.li@[p as int] < self.li@[q]);
                            }
                        }
                    }
                    lemma_backward_skip(f, w, j as int, next, r as int);
                    next = r + 1;
                    assert forall|q: int| p < q < end implies next <= #[trigger] self.li@[q] by {
                        assert(self.li@[p as int] < self.li@[q]);
                    }
                }
                acc = T::minus(acc, T::times(self.lx[p], x[r]));
                p = p + 1;
            }
            proof {
                assert forall|z: int| next <= z < self.n implies (#[trigger] (f.lower)(
                    z,
                    j as int,
                )) is None by {
                    assert((f.lower)(z, j as int) == self.lower_at(z, j as int));
                    if self.lower_at(z, j as int) is Some {
                        let q = self.lemma_found(z, j as int);
                        assert(self.li@[q] < next);
                    }
                }
                lemma_backward_skip(f, w, j as int, next, self.n as int);
            }
            x.set(j, acc);
        }
    }

    /// Solves `A x = b` for a single right-hand side.
    ///
    /// The elimination order is applied to the right-hand side and undone on the solution, so the
    /// caller never sees it. A right-hand side of another length is
    /// [`LdltError::SizeMismatch`].
    pub fn solve(&self, b: &[T]) -> (r: Result<Vec<T>, LdltError<T>>)
        requires
            self.wf(),
        ensures
            match r {
                Ok(x) => {
                    &&& b@.len() == self@.factors.pivots.len()
                    &&& x@ == outcome::solution(self@, b@)
                    &&& answers::is_put_back(self@, b@, x@)
                },
                Err(e) => b@.len() != self@.factors.pivots.len() && e@ == Fault::<
                    T,
                >::SizeMismatch {
                    expected: self@.factors.pivots.len() as int,
                    got: b@.len() as int,
                },
            },
    {
        if b.len() != self.n {
            return Err(LdltError::SizeMismatch { expected: self.n, got: b.len() });
        }
        let ghost f = self@.factors;
        let ghost order = self@.order;
        let ghost n = self.n as int;
        proof {
            assert forall|k: int| 0 <= k < n implies 0 <= #[trigger] order[k] < n by {
                assert(order.contains(order[k]));
            }
            answers::law_solution_is_substituted_and_put_back(self@, b@);
        }
        let mut x: Vec<T> = Vec::with_capacity(self.n);
        while x.len() < self.n
            invariant
                self.wf(),
                b@.len() == self.n,
                n == self.n,
                order == ordering::ints(self.order@),
                forall|k: int| 0 <= k < n ==> 0 <= #[trigger] order[k] < n,
                x@.len() <= self.n,
                forall|k: int| 0 <= k < x@.len() ==> #[trigger] x@[k] == b@[order[k]],
            decreases self.n - x@.len(),
        {
            let at: usize = x.len();
            let o: usize = self.order[at];
            assert(order[at as int] == o);
            x.push(b[o]);
        }
        let ghost c = x@;
        self.substitute_forward(&mut x);
        self.divide(&mut x);
        let ghost w = x@;
        self.substitute_backward(&mut x);
        proof {
            let c1 = Seq::new(f.pivots.len(), |k: int| b@[order[k]]);
            assert(c =~= c1);
            let w1 = Seq::new(
                f.pivots.len(),
                |k: int| T::over_spec(outcome::forward(f, c1, k, k), f.pivots[k]),
            );
            assert(w =~= w1);
            assert(x@ =~= outcome::substituted(f, c1));
        }
        let mut out: Vec<T> = filled(self.n, T::of_u64(0));
        let mut k: usize = 0;
        while k < self.n
            invariant
                self.wf(),
                n == self.n,
                order == ordering::ints(self.order@),
                order.no_duplicates(),
                forall|k: int| 0 <= k < n ==> 0 <= #[trigger] order[k] < n,
                k <= self.n,
                x@.len() == n,
                out@.len() == n,
                forall|j: int| 0 <= j < k ==> out@[#[trigger] order[j]] == x@[j],
            decreases self.n - k,
        {
            let o: usize = self.order[k];
            assert(order[k as int] == o);
            out.set(o, x[k]);
            k = k + 1;
        }
        proof {
            assert forall|i: int| 0 <= i < n implies #[trigger] out@[i] == x@[order.index_of(i)] by {
                assert(order.contains(i));
                let j = order.index_of(i);
                assert(0 <= j < n && order[j] == i);
            }
            assert(out@ =~= outcome::solution(self@, b@));
        }
        Ok(out)
    }
}

} // verus!
