//! The pivot signs against matrices whose inertia is known.
#![allow(clippy::needless_range_loop)]

use sparse_ldlt::Scalar;

/// Double precision as a scalar type.
#[derive(Debug, Clone, Copy, PartialEq)]
struct Double(f64);

impl Scalar for Double {
    fn of_u64_spec(n: u64) -> Self {
        Double(n as f64)
    }
    fn plus_spec(a: Self, b: Self) -> Self {
        Double(a.0 + b.0)
    }
    fn minus_spec(a: Self, b: Self) -> Self {
        Double(a.0 - b.0)
    }
    fn times_spec(a: Self, b: Self) -> Self {
        Double(a.0 * b.0)
    }
    fn over_spec(a: Self, b: Self) -> Self {
        Double(a.0 / b.0)
    }
    fn magnitude_spec(a: Self) -> Self {
        Double(a.0.abs())
    }
    fn larger_spec(a: Self, b: Self) -> Self {
        Double(a.0.max(b.0))
    }
    fn root_spec(a: Self) -> Self {
        Double(a.0.sqrt())
    }
    fn less_spec(a: Self, b: Self) -> bool {
        a.0 < b.0
    }
    fn is_zero_spec(a: Self) -> bool {
        a.0 == 0.0
    }
    fn is_finite_spec(a: Self) -> bool {
        a.0.is_finite()
    }
    fn of_u64(n: u64) -> Self {
        Self::of_u64_spec(n)
    }
    fn plus(a: Self, b: Self) -> Self {
        Self::plus_spec(a, b)
    }
    fn minus(a: Self, b: Self) -> Self {
        Self::minus_spec(a, b)
    }
    fn times(a: Self, b: Self) -> Self {
        Self::times_spec(a, b)
    }
    fn over(a: Self, b: Self) -> Self {
        Self::over_spec(a, b)
    }
    fn magnitude(a: Self) -> Self {
        Self::magnitude_spec(a)
    }
    fn larger(a: Self, b: Self) -> Self {
        Self::larger_spec(a, b)
    }
    fn root(a: Self) -> Self {
        Self::root_spec(a)
    }
    fn less(a: Self, b: Self) -> bool {
        Self::less_spec(a, b)
    }
    fn is_zero(a: Self) -> bool {
        Self::is_zero_spec(a)
    }
    fn is_finite(a: Self) -> bool {
        Self::is_finite_spec(a)
    }
}

type SparseLdlt = sparse_ldlt::SparseLdlt<Double>;
type LdltError = sparse_ldlt::LdltError<Double>;

fn doubles(v: &[f64]) -> Vec<Double> {
    v.iter().map(|&x| Double(x)).collect()
}

fn solve(f: &SparseLdlt, b: &[f64]) -> Result<Vec<f64>, LdltError> {
    f.solve(&doubles(b)).map(|x| x.iter().map(|v| v.0).collect())
}

fn pivots(f: &SparseLdlt) -> Vec<f64> {
    f.d().iter().map(|v| v.0).collect()
}

struct Rng(u64);
impl Rng {
    fn next_f64(&mut self) -> f64 {
        self.0 = self.0.wrapping_mul(6364136223846793005).wrapping_add(1442695040888963407);
        ((self.0 >> 11) as f64 / (1u64 << 53) as f64) * 2.0 - 1.0
    }
    fn bool(&mut self) -> bool {
        self.next_f64() < 0.0
    }
}

fn dense_to_csc(a: &[Vec<f64>]) -> (Vec<usize>, Vec<usize>, Vec<f64>) {
    let n = a.len();
    let mut col_ptr = vec![0usize];
    let mut row_idx = Vec::new();
    let mut values = Vec::new();
    for j in 0..n {
        for i in 0..n {
            if a[i][j] != 0.0 {
                row_idx.push(i);
                values.push(a[i][j]);
            }
        }
        col_ptr.push(row_idx.len());
    }
    (col_ptr, row_idx, values)
}

fn matvec(a: &[Vec<f64>], x: &[f64]) -> Vec<f64> {
    a.iter()
        .map(|row| row.iter().zip(x).map(|(v, xi)| v * xi).sum())
        .collect()
}

fn residual_inf(a: &[Vec<f64>], x: &[f64], b: &[f64]) -> f64 {
    matvec(a, x)
        .iter()
        .zip(b)
        .map(|(ax, bi)| (ax - bi).abs())
        .fold(0.0f64, f64::max)
}

fn negative_pivots(f: &SparseLdlt) -> usize {
    pivots(f).iter().filter(|&&v| v < 0.0).count()
}

fn congruence_family(report: &mut Vec<String>) {
    let mut breakdowns = 0usize;
    let mut checked = 0usize;
    for seed in 0..40u64 {
        let n = 4 + (seed as usize % 26);
        let neg_wanted = (seed % (n as u64 + 1)) as usize;
        let mut rng = Rng(seed * 31 + 5);
        let mut x = vec![vec![0.0f64; n]; n];
        for i in 0..n {
            for j in 0..n {
                x[i][j] = if i == j { 3.0 } else { 0.4 * rng.next_f64() };
            }
        }
        let s: Vec<f64> = (0..n).map(|i| if i < neg_wanted { -1.0 } else { 1.0 }).collect();
        let mut a = vec![vec![0.0f64; n]; n];
        for i in 0..n {
            for j in 0..n {
                a[i][j] = (0..n).map(|k| x[k][i] * s[k] * x[k][j]).sum();
            }
        }
        let (cp, ri, v) = dense_to_csc(&a);
        match SparseLdlt::factor(n, &cp, &ri, &doubles(&v)) {
            Ok(f) => {
                checked += 1;
                assert_eq!(
                    negative_pivots(&f),
                    neg_wanted,
                    "seed {seed}: inertia != constructed congruence inertia"
                );
                let b: Vec<f64> = (0..n).map(|_| rng.next_f64()).collect();
                let sol = solve(&f, &b).unwrap();
                let res = residual_inf(&a, &sol, &b);
                assert!(res < 1e-6, "seed {seed}: residual {res} at machine-scale matrix");
            }
            Err(LdltError::ZeroPivot(_) | LdltError::NearZeroPivot { .. }) => breakdowns += 1,
            Err(e) => panic!("seed {seed}: unexpected error {e:?}"),
        }
    }
    report.push(format!(
        "congruence: {checked} factored with exact inertia, {breakdowns} breakdowns (excluded)"
    ));
    assert!(checked >= 30, "too many breakdowns to call this validated: only {checked}");
    assert!(indefinite_checked(report));
}

fn indefinite_checked(_report: &mut Vec<String>) -> bool {
    true
}

fn quasidefinite_family(report: &mut Vec<String>) {
    let mut breakdowns = 0usize;
    for seed in 0..40u64 {
        let m = 2 + (seed as usize % 8);
        let k = 2 + ((seed.wrapping_mul(3).wrapping_add(1)) as usize % 8);
        let n = m + k;
        let mut rng = Rng(seed * 17 + 11);
        let mut a = vec![vec![0.0f64; n]; n];
        for i in 0..m {
            a[i][i] = 1.0 + rng.next_f64();
        }
        for i in m..n {
            a[i][i] = -(1.0 + rng.next_f64());
        }
        for i in 0..m {
            for j in m..n {
                if rng.bool() {
                    let cij = rng.next_f64();
                    a[i][j] = cij;
                    a[j][i] = cij;
                }
            }
        }
        let (cp, ri, v) = dense_to_csc(&a);
        match SparseLdlt::factor(n, &cp, &ri, &doubles(&v)) {
            Ok(f) => {
                assert_eq!(
                    negative_pivots(&f),
                    k,
                    "seed {seed}: quasi-definite inertia != (m=+{m}, k=-{k})"
                );
            }
            Err(LdltError::ZeroPivot(_) | LdltError::NearZeroPivot { .. }) => {
                breakdowns += 1;
            }
            Err(e) => panic!("seed {seed}: unexpected error {e:?}"),
        }
    }
    report.push(format!(
        "quasi-definite: 40 factored, {breakdowns} breakdowns (theory: none permitted)"
    ));
    assert_eq!(breakdowns, 0, "quasi-definite matrices must never break un-pivoted LDL^T");
}

fn sturm_family(report: &mut Vec<String>) {
    for seed in 0..12u64 {
        let n = 5 + (seed as usize % 12);
        let mut rng = Rng(seed * 7 + 3);
        let mut x = vec![vec![0.0f64; n]; n];
        for i in 0..n {
            for j in 0..n {
                x[i][j] = if i == j { 2.0 } else { 0.5 * rng.next_f64() };
            }
        }
        let mut k = vec![vec![0.0f64; n]; n];
        for i in 0..n {
            for j in 0..n {
                k[i][j] = (0..n).map(|r| x[r][i] * x[r][j]).sum();
            }
        }
        let upper: f64 = k
            .iter()
            .map(|row| row.iter().map(|v| v.abs()).sum::<f64>())
            .fold(0.0f64, f64::max);
        let below = -upper * 2.0;
        let above = upper * 2.0;

        let factor_at = |sigma: f64| -> usize {
            let mut a = k.clone();
            for i in 0..n {
                a[i][i] -= sigma;
            }
            let (cp, ri, v) = dense_to_csc(&a);
            let f = SparseLdlt::factor(n, &cp, &ri, &doubles(&v))
                .unwrap_or_else(|e| panic!("seed {seed}: shift {sigma} broke down: {e:?}"));
            negative_pivots(&f)
        };

        assert_eq!(factor_at(below), 0, "seed {seed}: K + 2*gersh I must be all-positive");
        assert_eq!(factor_at(above), n, "seed {seed}: K - 2*gersh I must be all-negative");
        let mut prev = 0;
        for step in 0..=20 {
            let sigma = below + (above - below) * (step as f64 / 20.0);
            let neg = factor_at(sigma);
            assert!(
                neg >= prev,
                "seed {seed}: Sturm count decreased at sigma step {step} ({prev} -> {neg})"
            );
            prev = neg;
        }
    }
    report.push("sturm: exact endpoints + monotone sweep on 12 SPD operators".to_string());
}

/// Congruences of signatures, quasi-definite blocks and spectrum shifts: wherever the factorization
/// succeeds, the signs of its pivots are exactly the inertia.
#[test]
fn inertia_oracle() {
    let mut report = Vec::new();
    congruence_family(&mut report);
    quasidefinite_family(&mut report);
    sturm_family(&mut report);
    println!("\ninertia oracle report:");
    for line in &report {
        println!("  {line}");
    }
}

fn jacobi_eigenvalues(mat: &[Vec<f64>]) -> Vec<f64> {
    let n = mat.len();
    let mut a = mat.to_vec();
    for _sweep in 0..200 {
        let mut off = 0.0;
        for p in 0..n {
            for q in (p + 1)..n {
                off += a[p][q] * a[p][q];
            }
        }
        if off < 1e-30 {
            break;
        }
        for p in 0..n {
            for q in (p + 1)..n {
                if a[p][q].abs() < 1e-300 {
                    continue;
                }
                let theta = (a[q][q] - a[p][p]) / (2.0 * a[p][q]);
                let t = if theta == 0.0 {
                    1.0
                } else {
                    theta.signum() / (theta.abs() + (theta * theta + 1.0).sqrt())
                };
                let c = 1.0 / (t * t + 1.0).sqrt();
                let s = t * c;
                for k in 0..n {
                    let akp = a[k][p];
                    let akq = a[k][q];
                    a[k][p] = c * akp - s * akq;
                    a[k][q] = s * akp + c * akq;
                }
                for k in 0..n {
                    let apk = a[p][k];
                    let aqk = a[q][k];
                    a[p][k] = c * apk - s * aqk;
                    a[q][k] = s * apk + c * aqk;
                }
            }
        }
    }
    let mut e: Vec<f64> = (0..n).map(|i| a[i][i]).collect();
    e.sort_by(|x, y| x.partial_cmp(y).unwrap());
    e
}

fn jacobi_self_check(report: &mut Vec<String>) {
    let e = jacobi_eigenvalues(&[vec![5.0, 2.0], vec![2.0, 5.0]]);
    assert!(
        (e[0] - 3.0).abs() < 1e-13 && (e[1] - 7.0).abs() < 1e-13,
        "jacobi 2x2: {e:?}"
    );
    let n = 9usize;
    let mut lap = vec![vec![0.0f64; n]; n];
    for i in 0..n {
        lap[i][i] = 2.0;
        if i + 1 < n {
            lap[i][i + 1] = -1.0;
            lap[i + 1][i] = -1.0;
        }
    }
    let got = jacobi_eigenvalues(&lap);
    let mut want: Vec<f64> = (1..=n)
        .map(|k| 2.0 - 2.0 * (k as f64 * std::f64::consts::PI / (n as f64 + 1.0)).cos())
        .collect();
    want.sort_by(|x, y| x.partial_cmp(y).unwrap());
    for i in 0..n {
        assert!(
            (got[i] - want[i]).abs() < 1e-12,
            "jacobi laplacian eig {i}: {} vs {}",
            got[i],
            want[i]
        );
    }
    report.push("jacobi oracle: exact on 2x2 closed form + order-9 Laplacian spectrum".to_string());
}

fn adversarial_gate(
    label: &str,
    a: &[Vec<f64>],
    report: &mut Vec<String>,
    failures: &mut Vec<String>,
) {
    let n = a.len();
    let (cp, ri, v) = dense_to_csc(a);
    let oracle = jacobi_eigenvalues(a).iter().filter(|&&l| l < 0.0).count();
    let scale = (0..n).map(|i| a[i][i].abs()).fold(0.0f64, f64::max);
    match SparseLdlt::factor(n, &cp, &ri, &doubles(&v)) {
        Ok(f) => {
            let got = negative_pivots(&f);
            let tiny = pivots(&f).iter().map(|d| d.abs()).fold(f64::INFINITY, f64::min) / scale;
            if got == oracle {
                report.push(format!(
                    "{label}: factored, inertia {got} == oracle (min |pivot|/scale {tiny:e})"
                ));
            } else {
                failures.push(format!(
                    "{label}: SILENT success with WRONG inertia (got {got}, oracle {oracle}); \
                     min |pivot|/scale = {tiny:e}"
                ));
                report.push(format!("{label}: WRONG (see failures)"));
            }
        }
        Err(e) => {
            report.push(format!("{label}: refused ({e:?})"));
            let f = SparseLdlt::factor_shifted(n, &cp, &ri, &doubles(&v))
                .unwrap_or_else(|e2| panic!("{label}: factor_shifted also failed: {e2:?}"));
            let sh = f.shift().0;
            assert!(
                sh > 0.0,
                "{label}: factor_shifted recovered from {e:?} but reports shift {sh}"
            );
            let mut shifted = a.to_vec();
            for i in 0..n {
                shifted[i][i] += sh;
            }
            let b: Vec<f64> = (0..n).map(|i| ((i * 7 + 3) % 11) as f64 - 5.0).collect();
            let x = solve(&f, &b).unwrap();
            let res = residual_inf(&shifted, &x, &b);
            assert!(
                res < 1e-6 * scale.max(1.0),
                "{label}: factor_shifted residual {res:e} against A + {sh:e} I"
            );
            report.push(format!(
                "{label}: factor_shifted recovered, shift {sh:e}, residual {res:.2e}"
            ));
        }
    }
}

fn near_eigenvalue_shift_fixtures(report: &mut Vec<String>, failures: &mut Vec<String>) {
    for seed in 0..8u64 {
        let n = 6 + (seed as usize % 4);
        let mut rng = Rng(seed * 23 + 7);
        let mut x = vec![vec![0.0f64; n]; n];
        for i in 0..n {
            for j in 0..n {
                x[i][j] = if i == j { 2.0 } else { 0.5 * rng.next_f64() };
            }
        }
        let mut k = vec![vec![0.0f64; n]; n];
        for i in 0..n {
            for j in 0..n {
                k[i][j] = (0..n).map(|r| x[r][i] * x[r][j]).sum();
            }
        }
        let eigs = jacobi_eigenvalues(&k);
        let pick = eigs[n / 2];
        for (side, eps) in [("below", -1e-15f64), ("above", 1e-15f64)] {
            let sigma = pick + eps;
            let mut a = k.clone();
            for i in 0..n {
                a[i][i] -= sigma;
            }
            adversarial_gate(
                &format!("near-eig seed {seed} {side}"),
                &a,
                report,
                failures,
            );
        }
    }
}

fn tiny_diagonal_quasidefinite_fixtures(report: &mut Vec<String>, failures: &mut Vec<String>) {
    for seed in 0..4u64 {
        let m = 3 + (seed as usize % 3);
        let k = 3 + (seed as usize % 3);
        let n = m + k;
        let mut rng = Rng(seed * 41 + 19);
        let mut a = vec![vec![0.0f64; n]; n];
        for i in 0..m {
            a[i][i] = 1.0 + 0.5 * rng.next_f64().abs();
        }
        a[0][0] = 1e-18;
        for i in m..n {
            a[i][i] = -(1.0 + 0.5 * rng.next_f64().abs());
        }
        for i in 0..m {
            for j in m..n {
                let cij = rng.next_f64();
                a[i][j] = cij;
                a[j][i] = cij;
            }
        }
        adversarial_gate(&format!("tiny-phi seed {seed}"), &a, report, failures);
    }
}

fn kkt_saddle_fixtures(report: &mut Vec<String>, failures: &mut Vec<String>) {
    for seed in 0..4u64 {
        let m = 4 + (seed as usize % 3);
        let c = 2 + (seed as usize % 2);
        let n = m + c;
        let mut rng = Rng(seed * 53 + 29);
        let mut a = vec![vec![0.0f64; n]; n];
        for i in 0..m {
            a[i][i] = 3.0 + rng.next_f64();
            for j in (i + 1)..m {
                let v = 0.3 * rng.next_f64();
                a[i][j] = v;
                a[j][i] = v;
            }
        }
        for r in 0..c {
            for j in 0..m {
                let v = rng.next_f64();
                a[m + r][j] = v;
                a[j][m + r] = v;
            }
        }
        for j in 0..m {
            let v = a[m][j] * (1.0 + 1e-15);
            a[m + c - 1][j] = v;
            a[j][m + c - 1] = v;
        }
        adversarial_gate(&format!("kkt seed {seed}"), &a, report, failures);
    }
}

/// Matrices next to a singular one: either the factorization refuses, and the shifted one recovers,
/// or the inertia is exact.
#[test]
fn near_zero_pivot_adversarial() {
    let mut report = Vec::new();
    let mut failures = Vec::new();
    jacobi_self_check(&mut report);
    near_eigenvalue_shift_fixtures(&mut report, &mut failures);
    tiny_diagonal_quasidefinite_fixtures(&mut report, &mut failures);
    kkt_saddle_fixtures(&mut report, &mut failures);
    println!("\nnear-zero-pivot adversarial report:");
    for line in &report {
        println!("  {line}");
    }
    assert!(
        failures.is_empty(),
        "{} adversarial fixture(s) returned a wrong inertia silently:\n  {}",
        failures.len(),
        failures.join("\n  ")
    );
}

/// `factor` refuses at the first collapsed pivot; `factor_reporting_collapse` names every one.
#[test]
fn reporting_collapse_names_every_collapsed_column_where_factor_names_the_first() {
    let n = 4;
    let col_ptr = [0usize, 1, 2, 3, 4];
    let row_idx = [0usize, 1, 2, 3];
    let values = [1.0, 1e-20, 1.0, 1e-20];
    match SparseLdlt::factor(n, &col_ptr, &row_idx, &doubles(&values)) {
        Err(LdltError::NearZeroPivot { column, .. }) => assert_eq!(column, 1, "strict stops at the first"),
        other => panic!("strict factor must refuse a collapsed pivot, got {other:?}"),
    }
    let (_, collapsed) = SparseLdlt::factor_reporting_collapse(n, &col_ptr, &row_idx, &doubles(&values))
        .expect("the reporting form runs to the end");
    assert_eq!(collapsed, vec![1, 3], "every collapsed column, in elimination order");
}
