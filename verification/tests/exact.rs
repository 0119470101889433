//! Factoring and solving in exact arithmetic.
use sparse_ldlt::{amd, near_zero_pivot_rel, LdltError, Ratio, Scalar, SparseLdlt};

fn frac(num: i64, den: i64) -> Ratio {
    Ratio::new(num, den)
}

fn whole(num: i64) -> Ratio {
    Ratio::new(num, 1)
}

fn wholes(v: &[i64]) -> Vec<Ratio> {
    v.iter().map(|&x| whole(x)).collect()
}

/// The upper triangle of a dense symmetric matrix, zeros left out.
fn upper(a: &[&[i64]]) -> (Vec<usize>, Vec<usize>, Vec<Ratio>) {
    let mut col_ptr = vec![0];
    let mut row_idx = Vec::new();
    let mut values = Vec::new();
    for k in 0..a.len() {
        for j in 0..=k {
            if a[j][k] != 0 {
                row_idx.push(j);
                values.push(whole(a[j][k]));
            }
        }
        col_ptr.push(row_idx.len());
    }
    (col_ptr, row_idx, values)
}

fn factor(a: &[&[i64]]) -> SparseLdlt<Ratio> {
    let (cp, ri, v) = upper(a);
    SparseLdlt::factor(a.len(), &cp, &ri, &v).unwrap()
}

fn factor_in(a: &[&[i64]], order: &[usize]) -> SparseLdlt<Ratio> {
    let (cp, ri, v) = upper(a);
    SparseLdlt::factor_perm(a.len(), &cp, &ri, &v, order).unwrap()
}

fn zero() -> Ratio {
    Ratio::of_u64(0)
}

fn negatives(f: &SparseLdlt<Ratio>) -> usize {
    f.d().iter().filter(|&&d| Ratio::less(d, zero())).count()
}

fn positives(f: &SparseLdlt<Ratio>) -> usize {
    f.d().iter().filter(|&&d| Ratio::less(zero(), d)).count()
}

/// `(A + shift I) x == b`, exactly.
fn is_solution(a: &[&[i64]], shift: Ratio, x: &[Ratio], b: &[Ratio]) -> bool {
    (0..a.len()).all(|i| {
        let mut s = Ratio::times(shift, x[i]);
        for j in 0..a.len() {
            s = Ratio::plus(s, Ratio::times(whole(a[i][j]), x[j]));
        }
        s == b[i]
    })
}

fn permutations(n: usize) -> Vec<Vec<usize>> {
    let mut all = vec![vec![]];
    for _ in 0..n {
        let mut longer = Vec::new();
        for p in &all {
            for k in 0..n {
                if !p.contains(&k) {
                    let mut q: Vec<usize> = p.clone();
                    q.push(k);
                    longer.push(q);
                }
            }
        }
        all = longer;
    }
    all
}

const GOLDEN: [&[i64]; 3] = [&[2, 1, 0], &[1, -3, 1], &[0, 1, 2]];
const QUASI: [&[i64]; 4] = [&[2, 0, 1, 3], &[0, 5, 1, 0], &[1, 1, -4, 0], &[3, 0, 0, -1]];

#[test]
fn golden_answer_holds_exactly() {
    let f = factor(&GOLDEN);
    assert_eq!(f.dim(), 3);
    assert_eq!(f.d(), &[whole(2), frac(-7, 2), frac(16, 7)]);
    assert_eq!(f.shift(), zero());
    assert_eq!(f.nnz(), 2);
    assert_eq!(f.flops(), 8);
    let x = f.solve(&wholes(&[1, 2, 3])).unwrap();
    assert_eq!(x, vec![frac(1, 2), whole(0), frac(3, 2)]);
}

#[test]
fn a_dense_factor_counts_all_its_operations() {
    let f = factor(&[&[4, 1, 1, 1], &[1, 4, 1, 1], &[1, 1, 4, 1], &[1, 1, 1, 4]]);
    assert_eq!(f.nnz(), 6);
    // 3 * 3 + 9, 2 * 2 + 6 and 1 + 3.
    assert_eq!(f.flops(), 32);
    let g = factor(&[&[9, 2, -1, 1], &[2, 9, 3, 1], &[-1, 3, 9, -2], &[1, 1, -2, 9]]);
    assert_eq!((g.nnz(), g.flops()), (f.nnz(), f.flops()));
    assert!(f.flops() <= 6 * 6 + 3 * 6);
}

#[test]
fn every_order_solves_the_same_system() {
    let b = wholes(&[1, -2, 3, 4]);
    let x = factor(&QUASI).solve(&b).unwrap();
    assert!(is_solution(&QUASI, zero(), &x, &b));
    for order in permutations(4) {
        let f = factor_in(&QUASI, &order);
        assert_eq!(f.shift(), zero());
        assert_eq!(f.solve(&b).unwrap(), x, "order {order:?}");
    }
}

#[test]
fn every_order_has_the_same_inertia() {
    let a: [&[i64]; 4] = [&[1, 2, 0, 5], &[2, -3, 1, 0], &[0, 1, 2, 7], &[5, 0, 7, 1]];
    let plain = factor(&a);
    assert_eq!(negatives(&plain) + positives(&plain), 4);
    for order in permutations(4) {
        let (cp, ri, v) = upper(&a);
        let f = SparseLdlt::factor_perm(4, &cp, &ri, &v, &order).unwrap();
        assert_eq!(negatives(&f), negatives(&plain), "order {order:?}");
        assert_eq!(positives(&f), positives(&plain), "order {order:?}");
    }
}

#[test]
fn congruence_keeps_the_inertia() {
    // Xᵀ S X with S = diag(1, -1, -1) and X unit upper triangular.
    let x = [[1i64, 2, -1], [0, 1, 3], [0, 0, 1]];
    let s = [1i64, -1, -1];
    let mut a = vec![vec![0i64; 3]; 3];
    for i in 0..3 {
        for j in 0..3 {
            for t in 0..3 {
                a[i][j] += x[t][i] * s[t] * x[t][j];
            }
        }
    }
    let rows: Vec<&[i64]> = a.iter().map(|r| r.as_slice()).collect();
    for order in permutations(3) {
        let (cp, ri, v) = upper(&rows);
        match SparseLdlt::factor_perm(3, &cp, &ri, &v, &order) {
            Ok(f) => assert_eq!((positives(&f), negatives(&f)), (1, 2), "order {order:?}"),
            Err(e) => assert!(matches!(e, LdltError::ZeroPivot(_)), "order {order:?}"),
        }
    }
}

#[test]
fn quasidefinite_pivots_have_the_signs_of_their_rows() {
    // Rows 0 and 1 form a positive definite block, rows 2 and 3 a negative definite one.
    for order in permutations(4) {
        let f = factor_in(&QUASI, &order);
        for k in 0..4 {
            assert_eq!(Ratio::less(zero(), f.d()[k]), order[k] < 2, "order {order:?}");
        }
    }
}

#[test]
fn definite_matrices_have_positive_pivots() {
    let f = factor(&[&[4, 1, -2], &[1, 3, 0], &[-2, 0, 5]]);
    assert_eq!(positives(&f), 3);
    let g = factor(&[&[4, 1, -2], &[1, 3, 0], &[-2, 0, -5]]);
    assert_eq!(positives(&g), 2);
}

#[test]
fn negative_pivots_fall_as_the_shift_grows() {
    // The eigenvalues are -1 and 3.
    let mut last = 2;
    for (s, count) in [(-5, 2), (-4, 2), (-2, 1), (0, 1), (2, 0), (5, 0)] {
        let f = factor(&[&[1 + s, 2], &[2, 1 + s]]);
        assert_eq!(negatives(&f), count, "shift {s}");
        assert!(count <= last);
        last = count;
    }
}

#[test]
fn storage_does_not_change_the_factors() {
    let f = factor(&GOLDEN);
    let b = wholes(&[5, -1, 2]);
    // The entry 2 as 5 - 3, the entry 1 as 1/2 + 1/2, a stored zero, rows in falling order.
    let cp = [0, 2, 5, 8];
    let ri = [0, 0, 1, 0, 0, 2, 0, 1];
    let v = [
        whole(5), whole(-3), whole(-3), frac(1, 2), frac(1, 2), whole(2), whole(0), whole(1),
    ];
    let g = SparseLdlt::factor(3, &cp, &ri, &v).unwrap();
    assert_eq!(g.d(), f.d());
    assert_eq!(g.solve(&b), f.solve(&b));
    // A stored zero is part of the pattern.
    assert_eq!(g.nnz(), 3);
}

#[test]
fn values_below_the_diagonal_are_not_read() {
    let cp = [0, 2, 5, 7];
    let ri = [0, 1, 0, 1, 2, 1, 2];
    let good = wholes(&[2, 1, 1, -3, 1, 1, 2]);
    let odd = wholes(&[2, 77, 1, -3, -55, 1, 2]);
    let f = SparseLdlt::factor(3, &cp, &ri, &good).unwrap();
    let g = SparseLdlt::factor(3, &cp, &ri, &odd).unwrap();
    assert_eq!(f.d(), g.d());
    let order = [2, 0, 1];
    let f = SparseLdlt::factor_perm(3, &cp, &ri, &good, &order).unwrap();
    let g = SparseLdlt::factor_perm(3, &cp, &ri, &odd, &order).unwrap();
    assert_eq!(f.d(), g.d());
    assert_eq!(f.d(), factor_in(&GOLDEN, &order).d());
}

#[test]
fn a_zero_pivot_stops_the_factorization() {
    let (cp, ri, v) = upper(&[&[1, 1, 0], &[1, 1, 2], &[0, 2, 1]]);
    let e = SparseLdlt::factor(3, &cp, &ri, &v).unwrap_err();
    assert_eq!(e, LdltError::ZeroPivot(1));
    let e = SparseLdlt::factor_reporting_collapse(3, &cp, &ri, &v).unwrap_err();
    assert_eq!(e, LdltError::ZeroPivot(1));
    // Another order goes through.
    assert!(SparseLdlt::factor_perm(3, &cp, &ri, &v, &[0, 2, 1]).is_ok());
}

#[test]
fn a_destroyed_pivot_stops_the_factorization() {
    let tiny = frac(1, 100_000_000_000_000);
    let cp = [0, 1, 2, 3, 4];
    let ri = [0, 1, 2, 3];
    let v = [whole(-1), tiny, frac(1, 10_000_000_000_000), tiny];
    let e = SparseLdlt::factor(4, &cp, &ri, &v).unwrap_err();
    assert_eq!(
        e,
        LdltError::NearZeroPivot {
            column: 1,
            pivot: tiny,
            scale: whole(1),
            suggested_shift: frac(3_162_277, 10_000_000_000_000),
        }
    );
    // A pivot at the tolerance itself is not destroyed.
    let (f, collapsed) = SparseLdlt::factor_reporting_collapse(4, &cp, &ri, &v).unwrap();
    assert_eq!(collapsed, vec![1, 3]);
    assert_eq!(f.d(), &v);
}

#[test]
fn reporting_nothing_means_that_stopping_succeeds() {
    let (cp, ri, v) = upper(&GOLDEN);
    let (f, collapsed) = SparseLdlt::factor_reporting_collapse(3, &cp, &ri, &v).unwrap();
    assert!(collapsed.is_empty());
    assert_eq!(f.d(), factor(&GOLDEN).d());
}

#[test]
fn no_shift_is_used_where_none_is_needed() {
    let (cp, ri, v) = upper(&GOLDEN);
    let f = SparseLdlt::factor_shifted(3, &cp, &ri, &v).unwrap();
    assert_eq!(f.shift(), zero());
    assert_eq!(f.d(), factor(&GOLDEN).d());
    let f = SparseLdlt::factor_perm_shifted(3, &cp, &ri, &v, &[1, 2, 0]).unwrap();
    assert_eq!(f.shift(), zero());
    assert_eq!(f.d(), factor_in(&GOLDEN, &[1, 2, 0]).d());
}

#[test]
fn a_shifted_factorization_is_one_of_the_shifted_matrix() {
    let a: [&[i64]; 2] = [&[1, 0], &[0, 0]];
    let (cp, ri, v) = upper(&a);
    let s = frac(3_162_277, 10_000_000_000_000);
    let f = SparseLdlt::factor_shifted(2, &cp, &ri, &v).unwrap();
    assert_eq!(f.shift(), s);
    assert_eq!(f.d(), &[frac(10_000_003_162_277, 10_000_000_000_000), s]);
    let x = f.solve(&wholes(&[1, 1])).unwrap();
    let expected =
        vec![frac(10_000_000_000_000, 10_000_003_162_277), frac(10_000_000_000_000, 3_162_277)];
    assert_eq!(x, expected);
    let f = SparseLdlt::factor_perm_shifted(2, &cp, &ri, &v, &[1, 0]).unwrap();
    assert_eq!(f.shift(), s);
    assert_eq!(f.solve(&wholes(&[1, 1])).unwrap(), x);
}

#[test]
fn the_shift_grows_by_eight_until_it_serves() {
    // The first shift takes the last entry to zero, so the second is used.
    let s = frac(3_162_277, 10_000_000_000_000);
    let cp = [0, 1, 1, 2];
    let ri = [0, 2];
    let v = [whole(1), Ratio::minus(zero(), s)];
    let f = SparseLdlt::factor_shifted(3, &cp, &ri, &v).unwrap();
    assert_eq!(f.shift(), Ratio::times(s, whole(8)));
    assert_eq!(f.d()[1], Ratio::times(s, whole(8)));
    assert_eq!(f.d()[2], Ratio::times(s, whole(7)));
}

#[test]
fn the_last_failure_is_returned_where_no_shift_serves() {
    // Each of the eight shifts takes one of the last entries to zero.
    let mut s = frac(3_162_277, 10_000_000_000_000);
    let mut v = vec![whole(1), zero()];
    for _ in 0..8 {
        v.push(Ratio::minus(zero(), s));
        s = Ratio::times(s, whole(8));
    }
    let cp: Vec<usize> = (0..=10).collect();
    let ri: Vec<usize> = (0..10).collect();
    let e = SparseLdlt::factor(10, &cp, &ri, &v).unwrap_err();
    assert_eq!(e, LdltError::ZeroPivot(1));
    let e = SparseLdlt::factor_shifted(10, &cp, &ri, &v).unwrap_err();
    assert_eq!(e, LdltError::ZeroPivot(9));
    let order: Vec<usize> = (0..10).rev().collect();
    let e = SparseLdlt::factor_perm_shifted(10, &cp, &ri, &v, &order).unwrap_err();
    assert_eq!(e, LdltError::ZeroPivot(0));
}

#[test]
fn a_matrix_without_diagonal_is_not_shifted() {
    let (cp, ri, v) = upper(&[&[0, 1], &[1, 0]]);
    let e = SparseLdlt::factor_shifted(2, &cp, &ri, &v).unwrap_err();
    assert_eq!(e, LdltError::ZeroPivot(0));
    let e = SparseLdlt::factor_perm_shifted(2, &cp, &ri, &v, &[1, 0]).unwrap_err();
    assert_eq!(e, LdltError::ZeroPivot(0));
}

#[test]
fn each_defect_of_the_arrays_is_named() {
    let one = wholes(&[1]);
    let message = |n: usize, cp: &[usize], ri: &[usize], v: &[Ratio]| {
        let e = SparseLdlt::factor(n, cp, ri, v).unwrap_err();
        assert_eq!(e, SparseLdlt::factor_reporting_collapse(n, cp, ri, v).unwrap_err());
        assert_eq!(e, SparseLdlt::factor_shifted(n, cp, ri, v).unwrap_err());
        let order: Vec<usize> = (0..n).collect();
        assert_eq!(e, SparseLdlt::factor_perm(n, cp, ri, v, &order).unwrap_err());
        assert_eq!(e, SparseLdlt::factor_perm_shifted(n, cp, ri, v, &order).unwrap_err());
        match e {
            LdltError::InvalidInput(m) => m,
            e => panic!("unexpected {e:?}"),
        }
    };
    assert_eq!(message(2, &[0, 1], &[0], &one), "col_ptr length must be n + 1");
    assert_eq!(message(1, &[0, 1], &[0, 0], &one), "row_idx and values length mismatch");
    assert_eq!(message(1, &[0, 2], &[0], &one), "col_ptr[n] must equal the nonzero count");
    assert_eq!(message(2, &[0, 2, 1], &[0], &one), "col_ptr must be non-decreasing");
    assert_eq!(message(1, &[0, 1], &[1], &one), "row index out of range");
    assert_eq!(
        message(1, &[0, 1], &[0], &[frac(1, 0)]),
        "values contain a non-finite entry (NaN or infinity)"
    );
}

#[test]
fn each_defect_of_an_order_is_named() {
    let (cp, ri, v) = upper(&GOLDEN);
    let length = LdltError::InvalidInput("order length must be n");
    let content = LdltError::InvalidInput("order must be a permutation of 0..n");
    for (order, e) in [
        (vec![0, 1], length.clone()),
        (vec![0, 1, 2, 3], length),
        (vec![0, 1, 1], content.clone()),
        (vec![0, 1, 3], content),
    ] {
        assert_eq!(SparseLdlt::factor_perm(3, &cp, &ri, &v, &order).unwrap_err(), e);
        assert_eq!(SparseLdlt::factor_perm_shifted(3, &cp, &ri, &v, &order).unwrap_err(), e);
    }
}

#[test]
fn a_right_hand_side_of_another_length_is_refused() {
    let f = factor(&GOLDEN);
    let e = f.solve(&wholes(&[1, 2])).unwrap_err();
    assert_eq!(e, LdltError::SizeMismatch { expected: 3, got: 2 });
    let e = f.solve(&wholes(&[1, 2, 3, 4])).unwrap_err();
    assert_eq!(e, LdltError::SizeMismatch { expected: 3, got: 4 });
}

#[test]
fn the_empty_matrix_is_factored() {
    let f = SparseLdlt::<Ratio>::factor(0, &[0], &[], &[]).unwrap();
    assert_eq!((f.dim(), f.nnz(), f.flops()), (0, 0, 0));
    assert_eq!(f.solve(&[]).unwrap(), vec![]);
    assert_eq!(amd(0, &[0], &[]), Vec::<usize>::new());
}

#[test]
fn minimum_degree_orders_are_as_expected() {
    // A path: the ends first, each followed inwards.
    assert_eq!(amd(4, &[0, 0, 1, 2, 3], &[0, 1, 2]), vec![0, 1, 2, 3]);
    // A star: all the leaves but one, then the centre.
    assert_eq!(amd(5, &[0, 0, 1, 2, 3, 4], &[0, 0, 0, 0]), vec![1, 2, 3, 0, 4]);
    // A cycle of five: each elimination leaves a shorter cycle.
    assert_eq!(amd(5, &[0, 0, 1, 2, 3, 5], &[0, 1, 2, 0, 3]), vec![0, 1, 2, 3, 4]);
    // A cycle with a chord: the nodes off the chord have the smallest degree.
    assert_eq!(amd(4, &[0, 0, 1, 3, 5], &[0, 0, 1, 0, 2]), vec![1, 0, 2, 3]);
}

#[test]
fn minimum_degree_order_ignores_the_lower_triangle() {
    // The entries of column 0 all lie below the diagonal.
    assert_eq!(amd(4, &[0, 3, 3, 3, 3], &[1, 2, 3]), vec![0, 1, 2, 3]);
    // Both triangles of a star give the order of the upper one.
    let both = amd(4, &[0, 3, 4, 5, 6], &[1, 2, 3, 0, 0, 0]);
    assert_eq!(both, amd(4, &[0, 0, 1, 2, 3], &[0, 0, 0]));
    assert_eq!(both, vec![1, 2, 0, 3]);
}

#[test]
fn minimum_degree_order_keeps_a_star_free_of_fill() {
    let a: [&[i64]; 5] = [
        &[9, 1, 1, 1, 1],
        &[1, 9, 0, 0, 0],
        &[1, 0, 9, 0, 0],
        &[1, 0, 0, 9, 0],
        &[1, 0, 0, 0, 9],
    ];
    let (cp, ri, v) = upper(&a);
    let order = amd(5, &cp, &ri);
    let f = SparseLdlt::factor_perm(5, &cp, &ri, &v, &order).unwrap();
    // Every node has one neighbour left when it is eliminated, the last one none.
    assert_eq!((f.nnz(), f.flops()), (4, 16));
    let g = factor(&a);
    assert_eq!((g.nnz(), g.flops()), (10, 28 + 18 + 10 + 4));
    let b = wholes(&[1, 2, 3, 4, 5]);
    assert_eq!(f.solve(&b), g.solve(&b));
}

#[test]
fn fractions_are_exact_or_undefined() {
    assert_eq!(frac(2, -4), Ratio { num: -1, den: 2 });
    assert_eq!(Ratio::plus(frac(1, 2), frac(1, 3)), frac(5, 6));
    assert_eq!(Ratio::minus(frac(1, 2), frac(1, 3)), frac(1, 6));
    assert_eq!(Ratio::times(frac(-2, 3), frac(9, 4)), frac(-3, 2));
    assert_eq!(Ratio::over(frac(1, 2), frac(-3, 4)), frac(-2, 3));
    assert_eq!(Ratio::magnitude(frac(-7, 5)), frac(7, 5));
    assert_eq!(Ratio::larger(frac(1, 3), frac(1, 2)), frac(1, 2));
    assert_eq!(Ratio::larger(frac(1, 2), frac(1, 3)), frac(1, 2));
    assert_eq!(Ratio::root(frac(9, 16)), frac(3, 4));
    assert_eq!(Ratio::root(whole(2)), whole(1));
    assert!(Ratio::less(frac(1, 3), frac(1, 2)));
    assert!(!Ratio::less(frac(1, 2), frac(1, 2)));
    assert!(Ratio::is_zero(whole(0)));
    assert!(!Ratio::is_zero(frac(1, i64::MAX)));
    for undefined in [
        frac(1, 0),
        Ratio::of_u64(u64::MAX),
        Ratio::over(whole(1), whole(0)),
        Ratio::times(whole(i64::MAX), whole(2)),
        Ratio::plus(frac(1, i64::MAX), frac(1, i64::MAX - 1)),
        Ratio::root(whole(-1)),
        Ratio::plus(frac(1, 0), whole(1)),
    ] {
        assert!(!Ratio::is_finite(undefined));
        assert!(!Ratio::is_zero(undefined));
        assert!(!Ratio::less(undefined, whole(1)));
        assert!(!Ratio::less(whole(-1), undefined));
    }
}

#[test]
fn the_tolerance_is_one_in_ten_trillion() {
    assert_eq!(near_zero_pivot_rel::<Ratio>(), frac(1, 10_000_000_000_000));
}

#[test]
fn an_overflowing_pivot_is_a_breakdown() {
    // Two stored values of one diagonal entry whose sum does not fit.
    let (cp, ri, v) = ([0, 2], [0, 0], wholes(&[i64::MAX, i64::MAX]));
    assert_eq!(SparseLdlt::factor(1, &cp, &ri, &v).unwrap_err(), LdltError::ZeroPivot(0));
    assert_eq!(SparseLdlt::factor_shifted(1, &cp, &ri, &v).unwrap_err(), LdltError::ZeroPivot(0));
    // Taking the rows in an order adds up what is stored before anything is eliminated.
    assert_eq!(
        SparseLdlt::factor_perm(1, &cp, &ri, &v, &[0]).unwrap_err(),
        LdltError::InvalidInput("values contain a non-finite entry (NaN or infinity)")
    );
    // A product that does not fit.
    let (cp, ri, v) = upper(&[&[1, i64::MAX], &[i64::MAX, 1]]);
    assert_eq!(SparseLdlt::factor(2, &cp, &ri, &v).unwrap_err(), LdltError::ZeroPivot(1));
    let e = SparseLdlt::factor_perm(2, &cp, &ri, &v, &[1, 0]).unwrap_err();
    assert_eq!(e, LdltError::ZeroPivot(1));
    assert_eq!(SparseLdlt::factor_shifted(2, &cp, &ri, &v).unwrap_err(), LdltError::ZeroPivot(1));
}

#[test]
fn reporting_goes_on_past_an_overflow() {
    // Dividing by the destroyed pivot overflows.
    let cp = [0, 1, 3];
    let ri = [0, 0, 1];
    let v = [frac(1, 1_000_000_000_000_000_000), whole(1_000_000_000), whole(1_000_000)];
    assert!(matches!(
        SparseLdlt::factor(2, &cp, &ri, &v).unwrap_err(),
        LdltError::NearZeroPivot { column: 0, .. }
    ));
    let (f, collapsed) = SparseLdlt::factor_reporting_collapse(2, &cp, &ri, &v).unwrap();
    assert_eq!(collapsed, vec![0]);
    assert_eq!(f.d()[0], v[0]);
    assert!(!Ratio::is_finite(f.d()[1]));
}

#[test]
fn reporting_fails_where_a_zero_follows_a_collapse() {
    // Column 1 collapses, and the block that follows is singular.
    let tiny = frac(1, 100_000_000_000_000);
    let cp = [0, 1, 2, 3, 5];
    let ri = [0, 1, 2, 2, 3];
    let v = [whole(1), tiny, whole(2), whole(2), whole(2)];
    assert!(matches!(
        SparseLdlt::factor(4, &cp, &ri, &v).unwrap_err(),
        LdltError::NearZeroPivot { column: 1, .. }
    ));
    let e = SparseLdlt::factor_reporting_collapse(4, &cp, &ri, &v).unwrap_err();
    assert_eq!(e, LdltError::ZeroPivot(3));
}

#[test]
fn an_exact_zero_stops_after_collapsed_columns_were_passed() {
    let cp = [0, 1, 2, 3];
    let ri = [0, 1, 2];
    let v = [whole(1), frac(1, 100_000_000_000_000), whole(0)];
    let e = SparseLdlt::factor_reporting_collapse(3, &cp, &ri, &v).unwrap_err();
    assert_eq!(e, LdltError::ZeroPivot(2));
}

#[test]
fn storage_does_not_change_a_failure() {
    // The pivots are 1 and 0, each entry at once and in parts.
    let (cp, ri, v) = upper(&[&[1, 1], &[1, 1]]);
    let e = SparseLdlt::factor(2, &cp, &ri, &v).unwrap_err();
    let parts = [frac(1, 2), frac(1, 2), frac(2, 3), whole(3), frac(1, 3), whole(-2)];
    let g = SparseLdlt::factor(2, &[0, 2, 6], &[0, 0, 1, 0, 1, 0], &parts).unwrap_err();
    assert_eq!((e.clone(), g), (LdltError::ZeroPivot(1), e));
    // A destroyed pivot.
    let tiny = frac(1, 100_000_000_000_000);
    let e = SparseLdlt::factor(2, &[0, 1, 2], &[0, 1], &[whole(1), tiny]).unwrap_err();
    let parts = [whole(3), whole(-2), frac(1, 200_000_000_000_000), frac(1, 200_000_000_000_000)];
    let g = SparseLdlt::factor(2, &[0, 2, 4], &[0, 0, 1, 1], &parts).unwrap_err();
    assert!(matches!(e, LdltError::NearZeroPivot { column: 1, .. }));
    assert_eq!(g, e);
}

#[test]
fn scaling_a_matrix_scales_its_pivots() {
    let (cp, ri, v) = upper(&GOLDEN);
    let f = factor(&GOLDEN);
    for c in [whole(-1), whole(8), frac(1, 4), frac(-3, 5)] {
        let scaled: Vec<Ratio> = v.iter().map(|&x| Ratio::times(c, x)).collect();
        let g = SparseLdlt::factor(3, &cp, &ri, &scaled).unwrap();
        let expected: Vec<Ratio> = f.d().iter().map(|&d| Ratio::times(c, d)).collect();
        assert_eq!(g.d(), expected);
        assert_eq!((g.nnz(), g.flops()), (f.nnz(), f.flops()));
    }
    // Failures keep their column; their magnitudes scale.
    let tiny = [whole(1), frac(1, 100_000_000_000_000)];
    let scaled = [whole(-4), frac(-4, 100_000_000_000_000)];
    assert!(matches!(
        SparseLdlt::factor(2, &[0, 1, 2], &[0, 1], &tiny).unwrap_err(),
        LdltError::NearZeroPivot { column: 1, .. }
    ));
    assert_eq!(
        SparseLdlt::factor(2, &[0, 1, 2], &[0, 1], &scaled).unwrap_err(),
        LdltError::NearZeroPivot {
            column: 1,
            pivot: scaled[1],
            scale: whole(4),
            suggested_shift: frac(4 * 3_162_277, 10_000_000_000_000),
        }
    );
    let zero_at_one = wholes(&[-2, -2, -2]);
    assert_eq!(
        SparseLdlt::factor(2, &[0, 1, 3], &[0, 0, 1], &zero_at_one).unwrap_err(),
        LdltError::ZeroPivot(1)
    );
}

#[test]
fn a_leading_block_has_the_leading_pivots() {
    let f = factor(&QUASI);
    let (cp, ri, v) = upper(&QUASI);
    for m in 0..=4 {
        let g = SparseLdlt::factor(m, &cp[..=m], &ri[..cp[m]], &v[..cp[m]]).unwrap();
        assert_eq!(g.d(), &f.d()[..m]);
        assert!(g.nnz() <= f.nnz());
    }
}

#[test]
fn both_triangles_give_what_the_upper_one_gives() {
    let cp = [0, 2, 5, 7];
    let ri = [0, 1, 0, 1, 2, 1, 2];
    let both = wholes(&[2, 1, 1, -3, 1, 1, 2]);
    let f = SparseLdlt::factor(3, &cp, &ri, &both).unwrap();
    let g = factor(&GOLDEN);
    assert_eq!(f.d(), g.d());
    assert_eq!((f.nnz(), f.flops()), (g.nnz(), g.flops()));
    assert_eq!(amd(3, &cp, &ri), amd(3, &[0, 1, 3, 5], &[0, 0, 1, 1, 2]));
}

#[test]
fn sturm_counts_have_their_end_points() {
    // The eigenvalues are 2 - 2√2, 2 and 2 + 2√2.
    for (s, below) in [(-10, 3), (-5, 3), (-3, 2), (-1, 1), (1, 0), (7, 0)] {
        let a: [&[i64]; 3] = [&[2 + s, 2, 0], &[2, 2 + s, 2], &[0, 2, 2 + s]];
        assert_eq!(negatives(&factor(&a)), below, "shift {s}");
        assert_eq!(negatives(&factor_in(&a, &[0, 2, 1])), below, "shift {s}");
    }
}

#[test]
fn forests_are_ordered_without_fill() {
    // A path, numbered from the middle outwards, and a tree with an isolated node.
    let forests: [(usize, &[(usize, usize)]); 3] = [
        (6, &[(0, 1), (0, 2), (1, 3), (2, 4), (3, 5)]),
        (8, &[(0, 1), (0, 2), (0, 3), (1, 4), (1, 5), (3, 6)]),
        (3, &[]),
    ];
    for (n, edges) in forests {
        let mut rows = vec![vec![0i64; n]; n];
        for k in 0..n {
            rows[k][k] = 10;
        }
        for &(i, j) in edges {
            rows[i][j] = 1;
            rows[j][i] = 1;
        }
        let a: Vec<&[i64]> = rows.iter().map(|r| r.as_slice()).collect();
        let (cp, ri, v) = upper(&a);
        let f = SparseLdlt::factor_perm(n, &cp, &ri, &v, &amd(n, &cp, &ri)).unwrap();
        assert_eq!(f.nnz(), edges.len());
        assert!(factor(&a).nnz() >= edges.len());
    }
}

#[test]
fn a_scaled_right_hand_side_gives_the_scaled_solution() {
    let f = factor(&QUASI);
    let x = f.solve(&wholes(&[1, -2, 3, 4])).unwrap();
    let y = f.solve(&wholes(&[-7, 14, -21, -28])).unwrap();
    let expected: Vec<Ratio> = x.iter().map(|&v| Ratio::times(whole(-7), v)).collect();
    assert_eq!(y, expected);
}

#[test]
fn returned_pivots_clear_the_tolerance() {
    let f = factor(&GOLDEN);
    for &d in f.d() {
        // The largest diagonal entry has the absolute value 3.
        let bound = Ratio::times(near_zero_pivot_rel::<Ratio>(), whole(3));
        assert!(!Ratio::less(Ratio::magnitude(d), bound));
    }
}

#[test]
fn the_operation_count_is_reported_where_it_fits() {
    assert_eq!(factor(&GOLDEN).checked_flops(), Some(8));
    assert_eq!(factor(&QUASI).checked_flops(), Some(factor(&QUASI).flops()));
}
