//! Factoring and solving small systems.
#![allow(clippy::needless_range_loop)]

use sparse_ldlt::{near_zero_pivot_rel, Scalar};

/// Double precision as a scalar type.
#[derive(Debug, Clone, Copy, PartialEq)]
struct Double(f64);

impl Scalar for Double {
    fn of_u64_spec(n: u64) -> Self {
        Double(n as f64)
    }
    fn plus_spec(a: Self, b: Self) -> Self {
        Double(a.0 + b.0)
    }
    fn minus_spec(a: Self, b: Self) -> Self {
        Double(a.0 - b.0)
    }
    fn times_spec(a: Self, b: Self) -> Self {
        Double(a.0 * b.0)
    }
    fn over_spec(a: Self, b: Self) -> Self {
        Double(a.0 / b.0)
    }
    fn magnitude_spec(a: Self) -> Self {
        Double(a.0.abs())
    }
    fn larger_spec(a: Self, b: Self) -> Self {
        Double(a.0.max(b.0))
    }
    fn root_spec(a: Self) -> Self {
        Double(a.0.sqrt())
    }
    fn less_spec(a: Self, b: Self) -> bool {
        a.0 < b.0
    }
    fn is_zero_spec(a: Self) -> bool {
        a.0 == 0.0
    }
    fn is_finite_spec(a: Self) -> bool {
        a.0.is_finite()
    }
    fn of_u64(n: u64) -> Self {
        Self::of_u64_spec(n)
    }
    fn plus(a: Self, b: Self) -> Self {
        Self::plus_spec(a, b)
    }
    fn minus(a: Self, b: Self) -> Self {
        Self::minus_spec(a, b)
    }
    fn times(a: Self, b: Self) -> Self {
        Self::times_spec(a, b)
    }
    fn over(a: Self, b: Self) -> Self {
        Self::over_spec(a, b)
    }
    fn magnitude(a: Self) -> Self {
        Self::magnitude_spec(a)
    }
    fn larger(a: Self, b: Self) -> Self {
        Self::larger_spec(a, b)
    }
    fn root(a: Self) -> Self {
        Self::root_spec(a)
    }
    fn less(a: Self, b: Self) -> bool {
        Self::less_spec(a, b)
    }
    fn is_zero(a: Self) -> bool {
        Self::is_zero_spec(a)
    }
    fn is_finite(a: Self) -> bool {
        Self::is_finite_spec(a)
    }
}

type SparseLdlt = sparse_ldlt::SparseLdlt<Double>;
type LdltError = sparse_ldlt::LdltError<Double>;

fn doubles(v: &[f64]) -> Vec<Double> {
    v.iter().map(|&x| Double(x)).collect()
}

fn solve(f: &SparseLdlt, b: &[f64]) -> Result<Vec<f64>, LdltError> {
    f.solve(&doubles(b)).map(|x| x.iter().map(|v| v.0).collect())
}

fn pivots(f: &SparseLdlt) -> Vec<f64> {
    f.d().iter().map(|v| v.0).collect()
}

struct Rng(u64);
impl Rng {
    fn next_f64(&mut self) -> f64 {
        self.0 = self.0.wrapping_mul(6364136223846793005).wrapping_add(1442695040888963407);
        ((self.0 >> 11) as f64 / (1u64 << 53) as f64) * 2.0 - 1.0
    }
}

#[allow(clippy::type_complexity)]
fn random_symmetric(
    n: usize,
    density: f64,
    diag_shift: f64,
    seed: u64,
) -> (Vec<usize>, Vec<usize>, Vec<f64>, Vec<Vec<f64>>) {
    let mut rng = Rng(seed);
    let mut dense = vec![vec![0.0f64; n]; n];
    for i in 0..n {
        for j in (i + 1)..n {
            if (rng.next_f64() + 1.0) / 2.0 < density {
                let v = rng.next_f64();
                dense[i][j] = v;
                dense[j][i] = v;
            }
        }
        dense[i][i] = rng.next_f64() + diag_shift;
    }
    let mut col_ptr = vec![0usize];
    let mut row_idx = Vec::new();
    let mut values = Vec::new();
    for j in 0..n {
        for i in 0..n {
            if dense[i][j] != 0.0 {
                row_idx.push(i);
                values.push(dense[i][j]);
            }
        }
        col_ptr.push(row_idx.len());
    }
    (col_ptr, row_idx, values, dense)
}

fn residual_inf(dense: &[Vec<f64>], x: &[f64], b: &[f64]) -> f64 {
    let n = b.len();
    (0..n)
        .map(|i| {
            let ax: f64 = (0..n).map(|j| dense[i][j] * x[j]).sum();
            (ax - b[i]).abs()
        })
        .fold(0.0, f64::max)
}

fn negative_eigs(mat: &[Vec<f64>]) -> usize {
    let n = mat.len();
    let mut a = mat.to_vec();
    for _sweep in 0..100 {
        let mut off = 0.0;
        for p in 0..n {
            for q in (p + 1)..n {
                off += a[p][q] * a[p][q];
            }
        }
        if off < 1e-20 {
            break;
        }
        for p in 0..n {
            for q in (p + 1)..n {
                if a[p][q].abs() < 1e-18 {
                    continue;
                }
                let theta = (a[q][q] - a[p][p]) / (2.0 * a[p][q]);
                let t = theta.signum() / (theta.abs() + (theta * theta + 1.0).sqrt());
                let c = 1.0 / (t * t + 1.0).sqrt();
                let s = t * c;
                for k in 0..n {
                    let akp = a[k][p];
                    let akq = a[k][q];
                    a[k][p] = c * akp - s * akq;
                    a[k][q] = s * akp + c * akq;
                }
                for k in 0..n {
                    let apk = a[p][k];
                    let aqk = a[q][k];
                    a[p][k] = c * apk - s * aqk;
                    a[q][k] = s * apk + c * aqk;
                }
            }
        }
    }
    (0..n).filter(|&i| a[i][i] < -1e-9).count()
}

/// Positive definite systems solve accurately and have no negative pivot.
#[test]
fn spd_solves_accurately_with_no_negative_pivots() {
    for seed in 0..25u64 {
        let n = 6 + (seed as usize % 18);
        let (cp, ri, v, dense) = random_symmetric(n, 0.4, n as f64 + 2.0, seed * 7 + 1);
        let mut rng = Rng(seed * 13 + 3);
        let b: Vec<f64> = (0..n).map(|_| rng.next_f64()).collect();
        let f = SparseLdlt::factor(n, &cp, &ri, &doubles(&v)).expect("SPD factor");
        let x = solve(&f, &b).unwrap();
        assert!(residual_inf(&dense, &x, &b) < 1e-9, "seed {seed}: residual too large");
        assert_eq!(pivots(&f).iter().filter(|&&d| d < 0.0).count(), 0);
    }
}

/// Indefinite systems solve, and their negative pivots are as many as their negative eigenvalues.
#[test]
fn indefinite_solves_and_inertia_is_correct() {
    let mut indefinite = 0;
    for seed in 0..60u64 {
        let n = 4 + (seed as usize % 10);
        let (cp, ri, v, dense) = random_symmetric(n, 0.35, 0.5, seed * 5 + 9);
        let mut rng = Rng(seed * 17 + 2);
        let b: Vec<f64> = (0..n).map(|_| rng.next_f64()).collect();
        let f = match SparseLdlt::factor(n, &cp, &ri, &doubles(&v)) {
            Ok(f) => f,
            Err(_) => continue,
        };
        let x = solve(&f, &b).unwrap();
        assert!(residual_inf(&dense, &x, &b) < 1e-7, "seed {seed}: residual too large");
        let neg = pivots(&f).iter().filter(|&&d| d < 0.0).count();
        assert_eq!(neg, negative_eigs(&dense), "seed {seed}: inertia mismatch");
        if neg > 0 {
            indefinite += 1;
        }
    }
    assert!(indefinite >= 5, "expected several indefinite cases, got {indefinite}");
}

/// A column pointer array of the wrong length is rejected.
#[test]
fn rejects_malformed_input() {
    assert!(matches!(SparseLdlt::factor(2, &[0, 1], &[0], &doubles(&[1.0])), Err(LdltError::InvalidInput(_))));
}

/// A value that is not finite would poison every factor entry: it is rejected at the door.
#[test]
fn rejects_non_finite_values() {
    let cp: &[usize] = &[0, 1, 2];
    let ri: &[usize] = &[0, 1];
    assert!(matches!(
        SparseLdlt::factor(2, cp, ri, &doubles(&[f64::NAN, 1.0])),
        Err(LdltError::InvalidInput(_))
    ));
    assert!(matches!(
        SparseLdlt::factor(2, cp, ri, &doubles(&[1.0, f64::INFINITY])),
        Err(LdltError::InvalidInput(_))
    ));
}

/// A right-hand side of the wrong length is an error.
#[test]
fn solve_rejects_wrong_rhs_length() {
    let f = SparseLdlt::factor(3, &[0, 2, 5, 7], &[0, 1, 0, 1, 2, 1, 2], &doubles(&[2.0, 1.0, 1.0, -3.0, 1.0, 1.0, 2.0])).unwrap();
    assert_eq!(
        solve(&f, &[1.0, 2.0]),
        Err(LdltError::SizeMismatch { expected: 3, got: 2 })
    );
}

/// A tiny leading pivot is a destroyed pivot, not a small one; an exact zero is a zero pivot.
#[test]
fn near_zero_pivot_is_reported_not_returned() {
    let cp: &[usize] = &[0, 2, 4];
    let ri: &[usize] = &[0, 1, 0, 1];
    let v: &[f64] = &[1e-18, 1.0, 1.0, 1.0];
    match SparseLdlt::factor(2, cp, ri, &doubles(v)) {
        Err(LdltError::NearZeroPivot {
            column,
            pivot,
            scale,
            suggested_shift,
        }) => {
            assert_eq!(column, 0);
            assert_eq!(pivot.0, 1e-18);
            assert_eq!(scale.0, 1.0);
            assert!(suggested_shift.0 > near_zero_pivot_rel::<Double>().0 * scale.0);
        }
        other => panic!("expected NearZeroPivot, got {other:?}"),
    }
    assert!(matches!(
        SparseLdlt::factor(1, &[0, 1], &[0], &doubles(&[0.0])),
        Err(LdltError::ZeroPivot(0))
    ));
    match SparseLdlt::factor_perm(2, cp, ri, &doubles(v), &[0, 1]) {
        Err(LdltError::NearZeroPivot { column, .. }) => assert_eq!(column, 0),
        other => panic!("expected NearZeroPivot from factor_perm, got {other:?}"),
    }
}

/// The shifted ways of factoring recover, and say by how much they moved the matrix.
#[test]
fn factor_shifted_recovers_and_reports_the_shift() {
    let cp: &[usize] = &[0, 2, 4];
    let ri: &[usize] = &[0, 1, 0, 1];
    let v: &[f64] = &[1e-18, 1.0, 1.0, 1.0];
    let f = SparseLdlt::factor_shifted(2, cp, ri, &doubles(v)).expect("shifted factor");
    let sh = f.shift().0;
    assert!(sh > 0.0, "shift was {sh}");
    let b = [1.0, 2.0];
    let x = solve(&f, &b).unwrap();
    let a = [[1e-18 + sh, 1.0], [1.0, 1.0 + sh]];
    for i in 0..2 {
        let ax = a[i][0] * x[0] + a[i][1] * x[1];
        assert!((ax - b[i]).abs() < 1e-9, "row {i}: {ax} vs {}", b[i]);
    }
    let g = SparseLdlt::factor_perm_shifted(2, cp, ri, &doubles(v), &[0, 1]).expect("shifted perm");
    assert!(g.shift().0 > 0.0);
    let h = SparseLdlt::factor_shifted(2, cp, ri, &doubles(&[3.0, 1.0, 1.0, 2.0])).unwrap();
    assert_eq!(h.shift().0, 0.0);
    let plain = SparseLdlt::factor(2, cp, ri, &doubles(&[3.0, 1.0, 1.0, 2.0])).unwrap();
    assert_eq!(plain.shift().0, 0.0);
}

/// Factors of a small indefinite matrix that are computed by hand: D = (2, -7/2, 16/7), L[1, 0] = 1/2,
/// L[2, 1] = -2/7, and no entry L[2, 0].
#[test]
fn golden_known_answer() {
    let f = SparseLdlt::factor(3, &[0, 2, 5, 7], &[0, 1, 0, 1, 2, 1, 2], &doubles(&[2.0, 1.0, 1.0, -3.0, 1.0, 1.0, 2.0])).unwrap();
    assert_eq!(f.nnz(), 2);
    assert_eq!(f.dim(), 3);
    let d = pivots(&f);
    assert_eq!(d[0], 2.0);
    assert_eq!(d[1], -3.5);
    assert!((d[2] - 16.0 / 7.0).abs() < 1e-15, "d2 = {} (want 16/7)", d[2]);
    let x = solve(&f, &[1.0, 2.0, 3.0]).unwrap();
    let want = [0.5, 0.0, 1.5];
    for i in 0..3 {
        assert!((x[i] - want[i]).abs() < 1e-14, "x[{i}] = {} (want {})", x[i], want[i]);
    }
}

#[test]
fn signs_and_powers_of_two_commute_with_rounding() {
    for seed in 0..40u64 {
        let n = 3 + (seed as usize % 20);
        let (cp, ri, v, _) = random_symmetric(n, 0.4, 0.0, seed + 900);
        let f = match SparseLdlt::factor(n, &cp, &ri, &doubles(&v)) {
            Ok(f) => f,
            Err(_) => continue,
        };
        let b: Vec<f64> = (0..n).map(|i| (i as f64) - 2.5).collect();
        let x = solve(&f, &b).unwrap();
        for c in [-1.0, 4.0, 0.125, -1024.0] {
            let times = |u: &[f64]| u.iter().map(|&y| c * y).collect::<Vec<f64>>();
            let g = SparseLdlt::factor(n, &cp, &ri, &doubles(&times(&v))).unwrap();
            assert_eq!(pivots(&g), times(&pivots(&f)));
            assert_eq!((g.nnz(), g.flops()), (f.nnz(), f.flops()));
            assert_eq!(solve(&f, &times(&b)).unwrap(), times(&x));
            assert_eq!(solve(&g, &times(&b)).unwrap(), x);
        }
    }
}
