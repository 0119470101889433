//! Finite sums of real numbers.
use vstd::prelude::*;

verus! {

/// The sum of `f(0), .., f(n - 1)`.
pub open spec fn sum(n: int, f: spec_fn(int) -> real) -> real
    decreases n,
{
    if n <= 0 {
        0real
    } else {
        sum(n - 1, f) + f(n - 1)
    }
}

/// The sum of the values of a list.
pub open spec fn list_sum(s: Seq<real>) -> real
    decreases s.len(),
{
    if s.len() == 0 {
        0real
    } else {
        list_sum(s.drop_last()) + s.last()
    }
}

pub proof fn lemma_sum_same(n: int, f: spec_fn(int) -> real, g: spec_fn(int) -> real)
    requires
        forall|i: int| 0 <= i < n ==> f(i) == #[trigger] g(i),
    ensures
        sum(n, f) == sum(n, g),
    decreases n,
{
    if n > 0 {
        lemma_sum_same(n - 1, f, g);
        assert(f(n - 1) == g(n - 1));
    }
}

pub proof fn lemma_sum_zero(n: int, f: spec_fn(int) -> real)
    requires
        forall|i: int| 0 <= i < n ==> #[trigger] f(i) == 0real,
    ensures
        sum(n, f) == 0real,
    decreases n,
{
    if n > 0 {
        lemma_sum_zero(n - 1, f);
        assert(f(n - 1) == 0real);
    }
}

pub proof fn lemma_sum_plus(n: int, f: spec_fn(int) -> real, g: spec_fn(int) -> real)
    ensures
        sum(n, |i: int| f(i) + g(i)) == sum(n, f) + sum(n, g),
    decreases n,
{
    if n > 0 {
        lemma_sum_plus(n - 1, f, g);
    }
}

pub proof fn lemma_sum_times(n: int, c: real, f: spec_fn(int) -> real)
    ensures
        sum(n, |i: int| c * f(i)) == c * sum(n, f),
    decreases n,
{
    if n > 0 {
        lemma_sum_times(n - 1, c, f);
        let s = sum(n - 1, f);
        let x = f(n - 1);
        assert(c * (s + x) == c * s + c * x) by (nonlinear_arith);
    } else {
        assert(c * 0real == 0real) by (nonlinear_arith);
    }
}

/// Terms from `m` on that are zero do not count.
pub proof fn lemma_sum_cut(m: int, n: int, f: spec_fn(int) -> real)
    requires
        0 <= m <= n,
        forall|i: int| m <= i < n ==> #[trigger] f(i) == 0real,
    ensures
        sum(n, f) == sum(m, f),
    decreases n,
{
    if m < n {
        lemma_sum_cut(m, n - 1, f);
        assert(f(n - 1) == 0real);
    }
}

/// A sum of which one term alone may differ from zero.
pub proof fn lemma_sum_single(n: int, k: int, f: spec_fn(int) -> real)
    requires
        0 <= k < n,
        forall|i: int| 0 <= i < n && i != k ==> #[trigger] f(i) == 0real,
    ensures
        sum(n, f) == f(k),
{
    lemma_sum_cut(k + 1, n, f);
    lemma_sum_zero(k, f);
}

/// The order of a double sum does not matter.
pub proof fn lemma_sum_swap(m: int, n: int, f: spec_fn(int, int) -> real)
    ensures
        sum(m, |i: int| sum(n, |j: int| f(i, j))) == sum(n, |j: int| sum(m, |i: int| f(i, j))),
    decreases m,
{
    let inner = |i: int| sum(n, |j: int| f(i, j));
    if m <= 0 {
        lemma_sum_zero(n, |j: int| sum(m, |i: int| f(i, j)));
    } else {
        lemma_sum_swap(m - 1, n, f);
        let p = |j: int| sum(m - 1, |i: int| f(i, j));
        let q = |j: int| f(m - 1, j);
        lemma_sum_plus(n, p, q);
        lemma_sum_same(n, |j: int| p(j) + q(j), |j: int| sum(m, |i: int| f(i, j)));
        assert(sum(m, inner) == sum(m - 1, inner) + inner(m - 1));
    }
}

/// A list without repetitions that names every term that is not zero gives the same sum.
pub proof fn lemma_sum_of_listing(n: int, f: spec_fn(int) -> real, s: Seq<int>)
    requires
        s.no_duplicates(),
        forall|t: int| 0 <= t < s.len() ==> 0 <= #[trigger] s[t] < n,
        forall|i: int| 0 <= i < n && !s.contains(i) ==> #[trigger] f(i) == 0real,
    ensures
        sum(s.len() as int, |t: int| f(s[t])) == sum(n, f),
    decreases n,
{
    if n <= 0 {
        if s.len() > 0 {
            assert(0 <= s[0] < n);
        }
    } else if s.contains(n - 1) {
        let w = choose|w: int| 0 <= w < s.len() && s[w] == n - 1;
        let rest = s.remove(w);
        assert forall|t: int| 0 <= t < rest.len() implies 0 <= #[trigger] rest[t] < n - 1 by {
            let t2 = if t < w { t } else { t + 1 };
            assert(rest[t] == s[t2]);
            assert(s[t2] != s[w]);
        }
        assert forall|i: int| 0 <= i < n - 1 && !rest.contains(i) implies #[trigger] f(i) == 0real by {
            if s.contains(i) {
                let t = choose|t: int| 0 <= t < s.len() && s[t] == i;
                let t2 = if t < w { t } else { t - 1 };
                assert(rest[t2] == i);
            }
        }
        lemma_sum_of_listing(n - 1, f, rest);
        lemma_sum_remove(s, w, f);
    } else {
        assert forall|t: int| 0 <= t < s.len() implies 0 <= #[trigger] s[t] < n - 1 by {
            assert(s.contains(s[t]));
        }
        lemma_sum_of_listing(n - 1, f, s);
        assert(f(n - 1) == 0real);
    }
}

/// Taking one element out of a list takes its term out of the sum.
proof fn lemma_sum_remove(s: Seq<int>, w: int, f: spec_fn(int) -> real)
    requires
        0 <= w < s.len(),
    ensures
        sum(s.len() as int, |t: int| f(s[t])) == sum(
            s.len() - 1,
            |t: int| f(s.remove(w)[t]),
        ) + f(s[w]),
    decreases s.len(),
{
    let n = s.len() as int;
    let g = |t: int| f(s[t]);
    let h = |t: int| f(s.remove(w)[t]);
    if w == n - 1 {
        lemma_sum_same(n - 1, g, h);
    } else {
        let init = s.drop_last();
        lemma_sum_remove(init, w, f);
        let g1 = |t: int| f(init[t]);
        let h1 = |t: int| f(init.remove(w)[t]);
        lemma_sum_same(n - 1, g, g1);
        lemma_sum_same(n - 2, h, h1);
        assert(s.remove(w)[n - 2] == s[n - 1]);
    }
}

pub proof fn lemma_sum_nonnegative(n: int, f: spec_fn(int) -> real)
    requires
        forall|i: int| 0 <= i < n ==> #[trigger] f(i) >= 0real,
    ensures
        sum(n, f) >= 0real,
        forall|i: int| 0 <= i < n && #[trigger] f(i) > 0real ==> sum(n, f) > 0real,
    decreases n,
{
    if n > 0 {
        lemma_sum_nonnegative(n - 1, f);
        assert(f(n - 1) >= 0real);
    }
}

} // verus!
