use trixel::codec::{MockCodec, TernaryCodec};
use trixel::ecc::RsEcc;
use trixel::solver::{ConstraintMask, SolverError};
use trixel::tri_anchor::{is_in_tri_anchor_region, tri_corner_positions, TRI_ANCHOR_COLS, TRI_ANCHOR_PATTERNS, TRI_ANCHOR_ROWS};
use trixel::gf3::{trits_to_symbol, GF3};
use trixel::rs::poly_eval;
use trixel::tri_gauss_solver::{parity_symbol_count, tri_grid_to_flat_coords, TriGaussSolver};

// -------------------------------------------------------------------
// Flat Coordinate Mapper
// -------------------------------------------------------------------

#[test]
fn tri_flat_coords_skips_anchors() {
    let rows = 20;
    let cols = 40;
    let coords = tri_grid_to_flat_coords(rows, cols);

    // Total cells minus anchor cells
    let total = rows * cols;
    let anchor_cells = 4 * TRI_ANCHOR_ROWS * TRI_ANCHOR_COLS;
    assert_eq!(coords.len(), total - anchor_cells);

    // No coordinate should be in an anchor region
    for &(col, row) in &coords {
        assert!(
            !is_in_tri_anchor_region(col, row, rows, cols),
            "({col},{row}) is in anchor region but was included"
        );
    }
}

#[test]
fn tri_flat_coords_deterministic() {
    let rows = 20;
    let cols = 30;
    let a = tri_grid_to_flat_coords(rows, cols);
    let b = tri_grid_to_flat_coords(rows, cols);
    assert_eq!(a, b, "Two calls must produce identical output");
}

#[test]
fn tri_flat_coords_row_major_order() {
    let rows = 20;
    let cols = 40;
    let coords = tri_grid_to_flat_coords(rows, cols);

    // Verify row-major: for each pair, (row_a, col_a) < (row_b, col_b)
    for window in coords.windows(2) {
        let (ca, ra) = window[0];
        let (cb, rb) = window[1];
        assert!(
            (ra, ca) < (rb, cb),
            "Not row-major: ({ca},{ra}) before ({cb},{rb})"
        );
    }
}

// -------------------------------------------------------------------
// Solver Roundtrip
// -------------------------------------------------------------------

#[test]
fn tri_gauss_solver_basic_roundtrip() {
    let data = b"hello";
    let trits = MockCodec::encode_bytes(data).unwrap();
    let rows = 20;
    let cols = 30;

    let grid = TriGaussSolver::resolve_trigrid(&trits, rows, cols, &[]).unwrap();

    assert_eq!(grid.rows, rows);
    assert_eq!(grid.cols, cols);

    // Extract payload from the grid (same mapping as encoder)
    let cell_coords = tri_grid_to_flat_coords(rows, cols);
    let mut raw: Vec<u8> = Vec::new();
    for &(col, row) in &cell_coords {
        raw.push(grid.get(col, row).unwrap());
    }

    // The raw stream starts with LENGTH_PREFIX_TRITS then the codeword.
    // Decode using RsEcc.
    let recovered_trits = RsEcc::correct_errors(&raw).unwrap();
    let recovered_bytes = MockCodec::decode_trits(&recovered_trits).unwrap();
    assert_eq!(recovered_bytes, data);
}

#[test]
fn tri_gauss_solver_url_roundtrip() {
    let data = b"https://github.com/bneb";
    let trits = MockCodec::encode_bytes(data).unwrap();
    let rows = 24;
    let cols = 36;

    let grid = TriGaussSolver::resolve_trigrid(&trits, rows, cols, &[]).unwrap();

    let cell_coords = tri_grid_to_flat_coords(rows, cols);
    let raw: Vec<u8> = cell_coords
        .iter()
        .map(|&(col, row)| grid.get(col, row).unwrap())
        .collect();

    let recovered_trits = RsEcc::correct_errors(&raw).unwrap();
    let recovered_bytes = MockCodec::decode_trits(&recovered_trits).unwrap();
    assert_eq!(recovered_bytes, data);
}

#[test]
fn tri_gauss_solver_anchors_present() {
    let data = b"x";
    let trits = MockCodec::encode_bytes(data).unwrap();
    let rows = 20;
    let cols = 40;

    let grid = TriGaussSolver::resolve_trigrid(&trits, rows, cols, &[]).unwrap();

    // Verify anchors are placed
    for &(ac, ar, pi) in &tri_corner_positions(rows, cols) {
        let pattern = &TRI_ANCHOR_PATTERNS[pi];
        for dr in 0..TRI_ANCHOR_ROWS {
            for dc in 0..TRI_ANCHOR_COLS {
                assert_eq!(
                    grid.get(ac + dc, ar + dr),
                    Some(pattern[dr][dc]),
                    "Anchor at ({},{}) pattern[{}][{}] mismatch",
                    ac + dc,
                    ar + dr,
                    dr,
                    dc
                );
            }
        }
    }
}

#[test]
fn tri_gauss_solver_too_small_grid_fails() {
    let trits = vec![0, 1, 2];
    let result = TriGaussSolver::resolve_trigrid(&trits, 4, 6, &[]);
    assert!(result.is_err());
}

// -------------------------------------------------------------------
// Image-Guided Solver
// -------------------------------------------------------------------

#[test]
fn image_guided_solver_roundtrip() {
    let data = b"https://github.com/bneb";
    let trits = MockCodec::encode_bytes(data).unwrap();
    let rows = 20;
    let cols = 40;

    let cell_coords = tri_grid_to_flat_coords(rows, cols);

    // Create a target map: simulate image-derived trits
    // Mix of 0, 1, 2 to test that the solver handles varied targets
    let target_trits: Vec<u8> = cell_coords.iter().enumerate()
        .map(|(i, _)| (i % 3) as u8)
        .collect();

    let grid = TriGaussSolver::resolve_trigrid_image_guided(
        &trits, rows, cols, &[], &target_trits
    ).unwrap();

    // Verify grid dimensions
    assert_eq!(grid.rows, rows);
    assert_eq!(grid.cols, cols);

    // Verify anchors are placed correctly
    for &(ac, ar, pi) in &tri_corner_positions(rows, cols) {
        let pattern = &TRI_ANCHOR_PATTERNS[pi];
        for dr in 0..TRI_ANCHOR_ROWS {
            for dc in 0..TRI_ANCHOR_COLS {
                assert_eq!(
                    grid.get(ac + dc, ar + dr),
                    Some(pattern[dr][dc]),
                    "Anchor at ({},{}) pattern[{}][{}] mismatch",
                    ac + dc, ar + dr, dr, dc
                );
            }
        }
    }

    // Verify all trit values are valid (0, 1, or 2)
    for row in 0..rows {
        for col in 0..cols {
            let v = grid.get(col, row).unwrap();
            assert!(v <= 2, "Invalid trit {} at ({},{})", v, col, row);
        }
    }
}

#[test]
fn image_guided_all_light_target_produces_light_bias() {
    let trits = vec![0, 1, 2, 0, 1, 2];
    let rows = 20;
    let cols = 40;

    let cell_coords = tri_grid_to_flat_coords(rows, cols);
    let target_trits: Vec<u8> = vec![2; cell_coords.len()]; // all light

    let grid = TriGaussSolver::resolve_trigrid_image_guided(
        &trits, rows, cols, &[], &target_trits
    ).unwrap();

    // Count trit values in the non-anchor region
    let mut counts = [0usize; 3];
    for &(col, row) in &cell_coords {
        let v = grid.get(col, row).unwrap_or(0) as usize;
        if v < 3 {
            counts[v] += 1;
        }
    }

    // With all-light targets, State 2 should dominate
    assert!(counts[2] > counts[0],
        "All-light targets should produce more State 2 than State 0: {:?}", counts);
}

#[test]
fn image_guided_all_dark_target_produces_dark_bias() {
    let trits = vec![0, 1, 2, 0, 1, 2];
    let rows = 20;
    let cols = 40;

    let cell_coords = tri_grid_to_flat_coords(rows, cols);
    let target_trits: Vec<u8> = vec![0; cell_coords.len()]; // all dark

    let grid = TriGaussSolver::resolve_trigrid_image_guided(
        &trits, rows, cols, &[], &target_trits
    ).unwrap();

    // Count trit values in the non-anchor region
    let mut counts = [0usize; 3];
    for &(col, row) in &cell_coords {
        let v = grid.get(col, row).unwrap_or(0) as usize;
        if v < 3 {
            counts[v] += 1;
        }
    }

    // With all-dark targets, State 0 should dominate
    assert!(counts[0] > counts[2],
        "All-dark targets should produce more State 0 than State 2: {:?}", counts);
}

#[test]
fn parity_count_is_three_tenths_rounded_up_made_even_and_clamped() {
    for n in 0usize..10_000 {
        let mut p = (3 * n + 9) / 10;
        if p % 2 != 0 {
            p += 1;
        }
        let p = p.min(728).max(2);
        assert_eq!(parity_symbol_count(n), p, "n = {n}");
    }
}

#[test]
fn parity_count_examples() {
    assert_eq!(parity_symbol_count(0), 2);
    assert_eq!(parity_symbol_count(10), 4);
    assert_eq!(parity_symbol_count(50), 16);
    assert_eq!(parity_symbol_count(104), 32);
    assert_eq!(parity_symbol_count(100_000), 728);
}

#[test]
fn tri_gauss_solver_reports_first_anchor_conflict() {
    let cs = vec![
        ConstraintMask { x: 10, y: 7, required_state: 0 },
        ConstraintMask { x: 1, y: 1, required_state: 2 },
        ConstraintMask { x: 0, y: 0, required_state: 2 },
    ];
    let r = TriGaussSolver::resolve_trigrid(&[0, 1, 2], 20, 40, &cs);
    assert_eq!(r, Err(SolverError::Conflict { x: 1, y: 1 }));
}

#[test]
fn tri_gauss_solver_too_small_reports_size() {
    let r = TriGaussSolver::resolve_trigrid(&[0, 1, 2], 9, 40, &[]);
    assert_eq!(r, Err(SolverError::MatrixTooSmall { size: 9, trits: 3 }));
}

#[test]
fn tri_gauss_solver_prefix_constraint_is_unsatisfiable() {
    // the first data cell holds a length-prefix trit, which no offset moves
    let coords = tri_grid_to_flat_coords(20, 40);
    let (x, y) = coords[0];
    let cs = vec![ConstraintMask { x, y, required_state: 1 }];
    let r = TriGaussSolver::resolve_trigrid(&[0, 1, 2], 20, 40, &cs);
    assert_eq!(r, Err(SolverError::Unsatisfiable));
}

#[test]
fn tri_gauss_solver_keeps_constraints_and_fill() {
    let data = b"ok";
    let trits = MockCodec::encode_bytes(data).unwrap();
    let rows = 20;
    let cols = 40;
    let coords = tri_grid_to_flat_coords(rows, cols);
    // a constraint near the end of the codeword area
    let (x, y) = coords[coords.len() - 20];
    let cs = vec![ConstraintMask { x, y, required_state: 0 }];
    let grid = TriGaussSolver::resolve_trigrid(&trits, rows, cols, &cs).unwrap();
    assert_eq!(grid.get(x, y), Some(0));
    let raw: Vec<u8> = coords.iter().map(|&(c, r)| grid.get(c, r).unwrap()).collect();
    let recovered = RsEcc::correct_errors(&raw).unwrap();
    assert_eq!(MockCodec::decode_trits(&recovered).unwrap(), data);
    // cells after the codeword are light
    let n = coords.len();
    let cw = (n - 12) / 6 * 6;
    for f in 12 + cw..n {
        assert_eq!(raw[f], 2);
    }
}

#[test]
fn image_guided_wrong_length_falls_back() {
    let trits = vec![0, 1, 2, 0, 1, 2];
    let a = TriGaussSolver::resolve_trigrid(&trits, 20, 40, &[]).unwrap();
    let b = TriGaussSolver::resolve_trigrid_image_guided(&trits, 20, 40, &[], &[0, 1]).unwrap();
    assert_eq!(a, b);
}

#[test]
fn tri_gauss_solver_grid_codeword_has_zero_syndromes() {
    let trits = MockCodec::encode_bytes(b"syndromes").unwrap();
    let rows = 20;
    let cols = 30;
    let grid = TriGaussSolver::resolve_trigrid(&trits, rows, cols, &[]).unwrap();
    let coords = tri_grid_to_flat_coords(rows, cols);
    assert_eq!(coords.len(), rows * cols - 4 * TRI_ANCHOR_ROWS * TRI_ANCHOR_COLS);
    let raw: Vec<u8> = coords.iter().map(|&(c, r)| grid.get(c, r).unwrap()).collect();
    let ns = (raw.len() - 12) / 6;
    let symbols: Vec<u16> = (0..ns).map(|j| trits_to_symbol(&raw[12 + 6 * j..12 + 6 * j + 6])).collect();
    let p = parity_symbol_count(ns);
    let gf = GF3::new();
    for i in 1..=p {
        assert_eq!(poly_eval(&gf, &symbols, gf.exp(i)), 0, "syndrome {i} must vanish");
    }
}

#[test]
fn constraints_after_the_codeword_keep_their_state() {
    let data = b"x";
    let trits = MockCodec::encode_bytes(data).unwrap();
    let rows = 20;
    let cols = 40;
    let coords = tri_grid_to_flat_coords(rows, cols);
    let (lc, lr) = coords[coords.len() - 1];
    let (pc, pr) = coords[coords.len() - 2];
    let constraints = vec![
        ConstraintMask { x: lc, y: lr, required_state: 0 },
        ConstraintMask { x: pc, y: pr, required_state: 1 },
    ];
    let grid = TriGaussSolver::resolve_trigrid(&trits, rows, cols, &constraints).unwrap();
    assert_eq!(grid.get(lc, lr), Some(0));
    assert_eq!(grid.get(pc, pr), Some(1));
    // the payload still reads back
    let raw: Vec<u8> = coords.iter().map(|&(c, r)| grid.get(c, r).unwrap()).collect();
    let recovered = RsEcc::correct_errors(&raw).unwrap();
    assert_eq!(MockCodec::decode_trits(&recovered).unwrap(), data);
}

#[test]
fn parity_is_thirty_percent_rounded_up_and_even() {
    assert_eq!(parity_symbol_count(100), 30);
    assert_eq!(parity_symbol_count(50), 16);
    assert_eq!(parity_symbol_count(3), 2);
    assert_eq!(parity_symbol_count(11), 4);
    assert_eq!(parity_symbol_count(5000), 728);
}
