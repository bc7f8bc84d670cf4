use rand::{Rng, SeedableRng};
use rand_chacha::ChaCha8Rng;
use ruffle::weighting::linalg;
use ruffle::Double;

fn d(x: f64) -> Double {
    Double::from_bits(x.to_bits())
}

fn f(x: Double) -> f64 {
    f64::from_bits(x.to_bits())
}

fn close(a: f64, b: f64, eps: f64) {
    assert!((a - b).abs() <= eps, "{a} is not within {eps} of {b}");
}

fn soft(a: &[Vec<f64>]) -> Vec<Vec<Double>> {
    a.iter().map(|r| r.iter().map(|x| d(*x)).collect()).collect()
}

fn hard(a: Vec<Vec<Double>>) -> Vec<Vec<f64>> {
    a.into_iter().map(|r| r.into_iter().map(f).collect()).collect()
}

fn cholesky(a: &[Vec<f64>]) -> Option<Vec<Vec<f64>>> {
    linalg::cholesky(&soft(a)).map(hard)
}

fn inverse_spd(a: &[Vec<f64>]) -> Option<Vec<Vec<f64>>> {
    linalg::inverse_spd(&soft(a)).map(hard)
}

fn solve_spd(a: &[Vec<f64>], b: &[f64]) -> Option<Vec<f64>> {
    let b: Vec<Double> = b.iter().map(|x| d(*x)).collect();
    linalg::solve_spd(&soft(a), &b).map(|x| x.into_iter().map(f).collect())
}

fn matmul(a: &[Vec<f64>], b: &[Vec<f64>]) -> Vec<Vec<f64>> {
    let n = a.len();
    let m = b[0].len();
    let p = b.len();
    let mut c = vec![vec![0.0f64; m]; n];
    for (i, ci) in c.iter_mut().enumerate() {
        for (j, cij) in ci.iter_mut().enumerate() {
            let mut s = 0.0;
            for k in 0..p {
                s += a[i][k] * b[k][j];
            }
            *cij = s;
        }
    }
    c
}

fn transpose(a: &[Vec<f64>]) -> Vec<Vec<f64>> {
    let n = a.len();
    let m = a[0].len();
    let mut t = vec![vec![0.0f64; n]; m];
    for (i, row) in a.iter().enumerate() {
        for (j, &v) in row.iter().enumerate() {
            t[j][i] = v;
        }
    }
    t
}

/// A random SPD matrix: `MᵀM + εI` is symmetric positive-definite for any `M`.
fn random_spd(n: usize, rng: &mut ChaCha8Rng) -> Vec<Vec<f64>> {
    let m: Vec<Vec<f64>> = (0..n)
        .map(|_| (0..n).map(|_| rng.gen_range(-2.0..2.0)).collect())
        .collect();
    let mut a = matmul(&transpose(&m), &m);
    for (i, row) in a.iter_mut().enumerate() {
        row[i] += 1e-3;
    }
    a
}

fn assert_identity(a: &[Vec<f64>], eps: f64) {
    for (i, row) in a.iter().enumerate() {
        for (j, &v) in row.iter().enumerate() {
            let target = if i == j { 1.0 } else { 0.0 };
            close(v, target, eps);
        }
    }
}

#[test]
fn cholesky_reconstructs_input() {
    let mut rng = ChaCha8Rng::seed_from_u64(7);
    for n in 1..=6 {
        let a = random_spd(n, &mut rng);
        let l = cholesky(&a).unwrap();
        let recon = matmul(&l, &transpose(&l));
        for (i, row) in a.iter().enumerate() {
            for (j, &v) in row.iter().enumerate() {
                close(recon[i][j], v, 1e-9);
            }
        }
    }
}

#[test]
fn identity_inverse_is_identity() {
    for n in 1..=5 {
        let id: Vec<Vec<f64>> = (0..n)
            .map(|i| (0..n).map(|j| if i == j { 1.0 } else { 0.0 }).collect())
            .collect();
        let inv = inverse_spd(&id).unwrap();
        assert_identity(&inv, 1e-12);
    }
}

#[test]
fn inverse_round_trip_is_identity() {
    let mut rng = ChaCha8Rng::seed_from_u64(99);
    for n in 1..=8 {
        let a = random_spd(n, &mut rng);
        let inv = inverse_spd(&a).unwrap();
        let prod = matmul(&a, &inv);
        assert_identity(&prod, 1e-6);
    }
}

#[test]
fn solve_matches_inverse_times_b() {
    let mut rng = ChaCha8Rng::seed_from_u64(123);
    for n in 1..=6 {
        let a = random_spd(n, &mut rng);
        let b: Vec<f64> = (0..n).map(|_| rng.gen_range(-3.0..3.0)).collect();
        let x = solve_spd(&a, &b).unwrap();
        let inv = inverse_spd(&a).unwrap();
        // inv * b
        let xb: Vec<f64> = (0..n)
            .map(|i| (0..n).map(|j| inv[i][j] * b[j]).sum())
            .collect();
        for i in 0..n {
            close(x[i], xb[i], 1e-7);
        }
        // And A x ≈ b.
        let ax: Vec<f64> = (0..n)
            .map(|i| (0..n).map(|j| a[i][j] * x[j]).sum())
            .collect();
        for i in 0..n {
            close(ax[i], b[i], 1e-7);
        }
    }
}

#[test]
fn one_by_one() {
    let a = vec![vec![4.0]];
    close(cholesky(&a).unwrap()[0][0], 2.0, 1e-12);
    close(inverse_spd(&a).unwrap()[0][0], 0.25, 1e-12);
    close(solve_spd(&a, &[8.0]).unwrap()[0], 2.0, 1e-12);
}

#[test]
fn two_by_two_hand_case() {
    // A = [[4, 2], [2, 3]]; det = 8; inv = (1/8)[[3, -2], [-2, 4]].
    let a = vec![vec![4.0, 2.0], vec![2.0, 3.0]];
    let inv = inverse_spd(&a).unwrap();
    close(inv[0][0], 3.0 / 8.0, 1e-12);
    close(inv[0][1], -2.0 / 8.0, 1e-12);
    close(inv[1][0], -2.0 / 8.0, 1e-12);
    close(inv[1][1], 4.0 / 8.0, 1e-12);
}

#[test]
fn three_by_three_diagonal() {
    let a = vec![
        vec![9.0, 0.0, 0.0],
        vec![0.0, 16.0, 0.0],
        vec![0.0, 0.0, 25.0],
    ];
    let l = cholesky(&a).unwrap();
    close(l[0][0], 3.0, 1e-12);
    close(l[1][1], 4.0, 1e-12);
    close(l[2][2], 5.0, 1e-12);
    let x = solve_spd(&a, &[9.0, 32.0, 75.0]).unwrap();
    close(x[0], 1.0, 1e-12);
    close(x[1], 2.0, 1e-12);
    close(x[2], 3.0, 1e-12);
}

#[test]
fn non_pd_returns_none() {
    // Negative diagonal.
    assert_eq!(cholesky(&[vec![-1.0]]), None);
    // Zero matrix is positive-semidefinite, not positive-definite.
    assert_eq!(cholesky(&[vec![0.0, 0.0], vec![0.0, 0.0]]), None);
    // Indefinite symmetric matrix [[1,2],[2,1]] (eigenvalues 3, -1).
    assert_eq!(cholesky(&[vec![1.0, 2.0], vec![2.0, 1.0]]), None);
    assert_eq!(inverse_spd(&[vec![1.0, 2.0], vec![2.0, 1.0]]), None);
    assert_eq!(
        solve_spd(&[vec![1.0, 2.0], vec![2.0, 1.0]], &[1.0, 1.0]),
        None
    );
}

#[test]
fn ragged_or_mismatched_returns_none() {
    assert_eq!(cholesky(&[vec![1.0, 0.0], vec![0.0]]), None);
    let a = vec![vec![4.0, 0.0], vec![0.0, 4.0]];
    assert_eq!(solve_spd(&a, &[1.0]), None);
}

#[test]
fn non_finite_returns_none() {
    assert_eq!(cholesky(&[vec![f64::NAN]]), None);
    assert_eq!(cholesky(&[vec![f64::INFINITY, 0.0], vec![0.0, 1.0]]), None);
}

#[test]
fn solve_dense_4x4_with_known_solution() {
    // A dense, symmetric, diagonally-dominant (hence SPD) 4x4 with a hand-chosen
    // solution x = [1,2,3,4]; b = A x. Solving exercises the full upper triangle of
    // back-substitution (every off-diagonal `l[k][i]` term participates), unlike the
    // diagonal-only cases above.
    let a = vec![
        vec![10.0, 1.0, 2.0, 0.0],
        vec![1.0, 12.0, 1.0, 3.0],
        vec![2.0, 1.0, 15.0, 1.0],
        vec![0.0, 3.0, 1.0, 20.0],
    ];
    let b = [18.0, 40.0, 53.0, 89.0]; // = a * [1,2,3,4]
    let x = solve_spd(&a, &b).unwrap();
    for (i, &xi) in [1.0, 2.0, 3.0, 4.0].iter().enumerate() {
        close(x[i], xi, 1e-9);
    }
}

#[test]
fn the_factor_and_the_solution_leave_small_residuals() {
    let a = vec![
        vec![4.0, 1.2, -0.6, 0.3],
        vec![1.2, 3.0, 0.5, -0.2],
        vec![-0.6, 0.5, 2.5, 0.9],
        vec![0.3, -0.2, 0.9, 1.75],
    ];
    let b = [1.0, -2.0, 0.25, 3.5];
    let l = cholesky(&a).unwrap();
    for i in 0..4 {
        for j in 0..=i {
            let back: f64 = (0..=j).map(|k| l[i][k] * l[j][k]).sum();
            close(back, a[i][j], 1e-14);
        }
    }
    let x = solve_spd(&a, &b).unwrap();
    for i in 0..4 {
        let back: f64 = (0..4).map(|j| a[i][j] * x[j]).sum();
        close(back, b[i], 1e-14);
    }
    let product = matmul(&a, &inverse_spd(&a).unwrap());
    for (i, row) in product.iter().enumerate() {
        for (j, v) in row.iter().enumerate() {
            close(*v, if i == j { 1.0 } else { 0.0 }, 1e-14);
        }
    }
}
