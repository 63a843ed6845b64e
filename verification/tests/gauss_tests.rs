use trixel::gauss::{gf3_add, gf3_inv, gf3_mul, gf3_neg, gf3_sub, solve_gf3, solve_gf3_with_default, solve_gf3_with_targets, Gf3Matrix};

#[test]
fn gf3_add_table() {
    assert_eq!(gf3_add(0, 0), 0);
    assert_eq!(gf3_add(0, 1), 1);
    assert_eq!(gf3_add(0, 2), 2);
    assert_eq!(gf3_add(1, 1), 2);
    assert_eq!(gf3_add(1, 2), 0);
    assert_eq!(gf3_add(2, 2), 1);
}

#[test]
fn gf3_sub_table() {
    assert_eq!(gf3_sub(0, 0), 0);
    assert_eq!(gf3_sub(1, 1), 0);
    assert_eq!(gf3_sub(2, 1), 1);
    assert_eq!(gf3_sub(0, 1), 2);
    assert_eq!(gf3_sub(1, 2), 2);
}

#[test]
fn gf3_mul_table() {
    assert_eq!(gf3_mul(0, 0), 0);
    assert_eq!(gf3_mul(0, 1), 0);
    assert_eq!(gf3_mul(1, 1), 1);
    assert_eq!(gf3_mul(1, 2), 2);
    assert_eq!(gf3_mul(2, 2), 1);
}

#[test]
fn gf3_neg_table() {
    assert_eq!(gf3_neg(0), 0);
    assert_eq!(gf3_neg(1), 2);
    assert_eq!(gf3_neg(2), 1);
}

#[test]
fn gf3_inv_self_inverse() {
    assert_eq!(gf3_inv(1), 1);
    assert_eq!(gf3_inv(2), 2);
}

// -----------------------------------------------------------------------
// Gaussian Elimination
// -----------------------------------------------------------------------

#[test]
fn solve_identity_system() {
    // I · x = [1, 2, 0]  →  x = [1, 2, 0]
    let a = Gf3Matrix {
        rows: 3,
        cols: 3,
        data: vec![
            1, 0, 0,
            0, 1, 0,
            0, 0, 1,
        ],
    };
    let b = vec![1, 2, 0];
    let x = solve_gf3(&a, &b).unwrap();
    assert_eq!(x, vec![1, 2, 0]);
}

#[test]
fn solve_simple_2x2() {
    // | 1 1 | · x = | 0 |
    // | 1 2 |       | 1 |
    //
    // Row 2 - Row 1: 0·x0 + 1·x1 = 1 → x1 = 1
    // Row 1: x0 + 1 = 0 (mod 3) → x0 = 2
    let a = Gf3Matrix {
        rows: 2,
        cols: 2,
        data: vec![1, 1, 1, 2],
    };
    let b = vec![0, 1];
    let x = solve_gf3(&a, &b).unwrap();
    assert_eq!(x, vec![2, 1]);

    // Verify: A·x = b
    for r in 0..2 {
        let mut sum = 0u8;
        for c in 0..2 {
            sum = gf3_add(sum, gf3_mul(a.get(r, c), x[c]));
        }
        assert_eq!(sum, b[r], "row {r}");
    }
}

#[test]
fn solve_3x3_with_elimination() {
    // | 2 1 0 |       | 1 |
    // | 1 0 2 | · x = | 2 |
    // | 0 2 1 |       | 0 |
    let a = Gf3Matrix {
        rows: 3,
        cols: 3,
        data: vec![
            2, 1, 0,
            1, 0, 2,
            0, 2, 1,
        ],
    };
    let b = vec![1, 2, 0];
    let x = solve_gf3(&a, &b).unwrap();

    // Verify: A·x = b (mod 3)
    for r in 0..3 {
        let mut sum = 0u8;
        for c in 0..3 {
            sum = gf3_add(sum, gf3_mul(a.get(r, c), x[c]));
        }
        assert_eq!(sum, b[r], "row {r}: expected {}, got {sum}", b[r]);
    }
}

#[test]
fn solve_underdetermined_system() {
    // 2 equations, 4 unknowns — under-determined
    // | 1 0 1 2 |       | 1 |
    // | 0 1 2 0 | · x = | 2 |
    //
    // Free variables x2, x3 default to 0 → x0=1, x1=2
    let a = Gf3Matrix {
        rows: 2,
        cols: 4,
        data: vec![
            1, 0, 1, 2,
            0, 1, 2, 0,
        ],
    };
    let b = vec![1, 2];
    let x = solve_gf3(&a, &b).unwrap();
    assert_eq!(x.len(), 4);

    // Verify: A·x = b
    for r in 0..2 {
        let mut sum = 0u8;
        for c in 0..4 {
            sum = gf3_add(sum, gf3_mul(a.get(r, c), x[c]));
        }
        assert_eq!(sum, b[r], "row {r}");
    }
}

#[test]
fn solve_inconsistent_returns_none() {
    // | 1 0 |       | 1 |
    // | 0 0 | · x = | 2 |  ← inconsistent (0 = 2 is impossible)
    let a = Gf3Matrix {
        rows: 2,
        cols: 2,
        data: vec![1, 0, 0, 0],
    };
    let b = vec![1, 2];
    assert!(solve_gf3(&a, &b).is_none());
}

#[test]
fn solve_requires_pivot_swap() {
    // | 0 1 |       | 2 |
    // | 1 0 | · x = | 1 |
    //
    // Needs row swap to find pivot in column 0
    // After swap: x0=1, x1=2
    let a = Gf3Matrix {
        rows: 2,
        cols: 2,
        data: vec![0, 1, 1, 0],
    };
    let b = vec![2, 1];
    let x = solve_gf3(&a, &b).unwrap();
    assert_eq!(x, vec![1, 2]);
}

#[test]
fn solve_larger_system_6x6() {
    // Build a random-ish 6x6 system, verify A·x = b
    let a = Gf3Matrix {
        rows: 6,
        cols: 6,
        data: vec![
            1, 2, 0, 1, 0, 2,
            2, 1, 1, 0, 2, 0,
            0, 0, 2, 1, 1, 1,
            1, 0, 0, 2, 0, 1,
            0, 1, 0, 0, 1, 2,
            2, 0, 1, 1, 0, 0,
        ],
    };
    let b = vec![1, 0, 2, 1, 2, 0];
    let result = solve_gf3(&a, &b);

    if let Some(x) = result {
        for r in 0..6 {
            let mut sum = 0u8;
            for c in 0..6 {
                sum = gf3_add(sum, gf3_mul(a.get(r, c), x[c]));
            }
            assert_eq!(sum, b[r], "row {r}");
        }
    }
    // If None, the system was inconsistent — that's also valid
}

#[test]
fn solve_heavily_underdetermined() {
    // 2 equations, 100 unknowns — massive freedom
    // This should solve instantly
    let mut a = Gf3Matrix::zeros(2, 100);
    a.set(0, 0, 1);
    a.set(0, 50, 2);
    a.set(1, 1, 1);
    a.set(1, 99, 1);

    let b = vec![1, 2];
    let x = solve_gf3(&a, &b).unwrap();
    assert_eq!(x.len(), 100);

    // Verify
    for r in 0..2 {
        let mut sum = 0u8;
        for c in 0..100 {
            sum = gf3_add(sum, gf3_mul(a.get(r, c), x[c]));
        }
        assert_eq!(sum, b[r], "row {r}");
    }
}

// -----------------------------------------------------------------------
// Per-Variable Targeted Solver
// -----------------------------------------------------------------------

#[test]
fn solve_with_targets_satisfies_parity() {
    // 2 equations, 4 unknowns — under-determined
    let a = Gf3Matrix {
        rows: 2,
        cols: 4,
        data: vec![
            1, 0, 1, 2,
            0, 1, 2, 0,
        ],
    };
    let b = vec![1, 2];
    let targets = vec![2, 1, 0, 1]; // arbitrary per-variable targets

    let x = solve_gf3_with_targets(&a, &b, &targets).unwrap();
    assert_eq!(x.len(), 4);

    // Verify: A·x = b
    for r in 0..2 {
        let mut sum = 0u8;
        for c in 0..4 {
            sum = gf3_add(sum, gf3_mul(a.get(r, c), x[c]));
        }
        assert_eq!(sum, b[r], "row {r}: parity violated");
    }
}

#[test]
fn solve_with_targets_free_vars_match_targets() {
    // Identity-like: 2 equations, 4 unknowns
    // Columns 0 and 1 have pivots; columns 2 and 3 are free
    let a = Gf3Matrix {
        rows: 2,
        cols: 4,
        data: vec![
            1, 0, 0, 0,  // x0 = b[0] - 0*x2 - 0*x3 = b[0]
            0, 1, 0, 0,  // x1 = b[1] - 0*x2 - 0*x3 = b[1]
        ],
    };
    let b = vec![1, 2];
    let targets = vec![0, 0, 2, 1]; // targets for free vars: x2=2, x3=1

    let x = solve_gf3_with_targets(&a, &b, &targets).unwrap();

    // x0 = 1 (pivot, determined by equation)
    // x1 = 2 (pivot, determined by equation)
    // x2 = 2 (free, matches target)
    // x3 = 1 (free, matches target)
    assert_eq!(x[0], 1, "pivot x0");
    assert_eq!(x[1], 2, "pivot x1");
    assert_eq!(x[2], 2, "free x2 should match target");
    assert_eq!(x[3], 1, "free x3 should match target");
}

#[test]
fn solve_with_targets_large_underdetermined() {
    // 2 equations, 100 unknowns — massive freedom
    let mut a = Gf3Matrix::zeros(2, 100);
    a.set(0, 0, 1);
    a.set(0, 50, 2);
    a.set(1, 1, 1);
    a.set(1, 99, 1);

    let b = vec![1, 2];

    // Set all targets to 2 except positions 0, 1 (pivots), 50, 99 (coupled)
    let mut targets = vec![2u8; 100];
    targets[0] = 0;  // will be overridden by pivot
    targets[1] = 0;  // will be overridden by pivot

    let x = solve_gf3_with_targets(&a, &b, &targets).unwrap();
    assert_eq!(x.len(), 100);

    // Verify parity
    for r in 0..2 {
        let mut sum = 0u8;
        for c in 0..100 {
            sum = gf3_add(sum, gf3_mul(a.get(r, c), x[c]));
        }
        assert_eq!(sum, b[r], "row {r}");
    }

    // Count how many free variables actually got their target (2)
    // (excluding the pivots at 0, 1 and coupled vars at 50, 99)
    let target_matches: usize = (2..100)
        .filter(|&i| i != 50 && i != 99)
        .filter(|&i| x[i] == 2)
        .count();
    // Should be the vast majority
    assert!(target_matches >= 90,
        "Expected most free vars to match target=2, got {target_matches}/96");
}

#[test]
fn solve_with_default_sets_free_vars() {
    let a = Gf3Matrix { rows: 1, cols: 3, data: vec![1, 0, 0] };
    let b = vec![2];
    let x = solve_gf3_with_default(&a, &b, 2).unwrap();
    assert_eq!(x, vec![2, 2, 2]);
    let x0 = solve_gf3(&a, &b).unwrap();
    assert_eq!(x0, vec![2, 0, 0]);
}

#[test]
fn gf3_matrix_set_reduces_mod_3_and_swaps() {
    let mut m = Gf3Matrix::zeros(2, 2);
    m.set(0, 1, 5);
    assert_eq!(m.get(0, 1), 2);
    m.swap_rows(0, 1);
    assert_eq!(m.get(1, 1), 2);
    assert_eq!(m.get(0, 1), 0);
}
