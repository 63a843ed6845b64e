use trixel::tri_anchor::{
    compute_anchor_crc, detect_corner_id, is_in_tri_anchor_region, tri_corner_positions, verify_anchor_crc,
    TRI_ANCHOR_COLS, TRI_ANCHOR_PATTERNS, TRI_ANCHOR_ROWS,
};

// -------------------------------------------------------------------
// Corner Positions
// -------------------------------------------------------------------

#[test]
fn tri_corner_positions_small_grid() {
    // Minimum viable grid: must fit 4 non-overlapping 5×8 anchors
    let rows = 12;
    let cols = 20;
    let corners = tri_corner_positions(rows, cols);

    // TL at (0, 0)
    assert_eq!(corners[0], (0, 0, 0));
    // TR at (cols - 8, 0)
    assert_eq!(corners[1], (12, 0, 1));
    // BL at (0, rows - 5)
    assert_eq!(corners[2], (0, 7, 2));
    // BR at (cols - 8, rows - 5)
    assert_eq!(corners[3], (12, 7, 3));
}

#[test]
fn tri_corner_positions_large_grid() {
    let rows = 60;
    let cols = 120;
    let corners = tri_corner_positions(rows, cols);

    assert_eq!(corners[0], (0, 0, 0));
    assert_eq!(corners[1], (112, 0, 1));
    assert_eq!(corners[2], (0, 55, 2));
    assert_eq!(corners[3], (112, 55, 3));
}

// -------------------------------------------------------------------
// Anchor Region Detection
// -------------------------------------------------------------------

#[test]
fn tri_anchor_region_corners_are_inside() {
    let rows = 20;
    let cols = 32;

    // TL block: (0..8, 0..5)
    assert!(is_in_tri_anchor_region(0, 0, rows, cols));
    assert!(is_in_tri_anchor_region(7, 4, rows, cols));
    assert!(is_in_tri_anchor_region(3, 2, rows, cols));

    // TR block
    assert!(is_in_tri_anchor_region(cols - 1, 0, rows, cols));
    assert!(is_in_tri_anchor_region(cols - 8, 0, rows, cols));

    // BL block
    assert!(is_in_tri_anchor_region(0, rows - 1, rows, cols));
    assert!(is_in_tri_anchor_region(0, rows - 5, rows, cols));

    // BR block
    assert!(is_in_tri_anchor_region(cols - 1, rows - 1, rows, cols));
}

#[test]
fn tri_anchor_region_center_is_outside() {
    let rows = 20;
    let cols = 32;

    // Center of the grid should never be in an anchor
    assert!(!is_in_tri_anchor_region(16, 10, rows, cols));
    assert!(!is_in_tri_anchor_region(10, 8, rows, cols));
}

#[test]
fn tri_anchor_region_edge_of_anchor_is_inside() {
    let rows = 20;
    let cols = 32;

    // Exact boundary of TL anchor (5×8)
    assert!(is_in_tri_anchor_region(7, 0, rows, cols));   // right edge
    assert!(is_in_tri_anchor_region(0, 4, rows, cols));   // bottom edge
    // Just outside TL
    assert!(!is_in_tri_anchor_region(8, 0, rows, cols));
    assert!(!is_in_tri_anchor_region(0, 5, rows, cols));
}

// -------------------------------------------------------------------
// Pattern Invariants
// -------------------------------------------------------------------

#[test]
fn tri_anchor_patterns_outer_ring_is_black() {
    for (pi, pattern) in TRI_ANCHOR_PATTERNS.iter().enumerate() {
        for col in 0..TRI_ANCHOR_COLS {
            assert_eq!(pattern[0][col], 0,
                "Pattern {pi} top row col {col} must be 0");
            assert_eq!(pattern[TRI_ANCHOR_ROWS - 1][col], 0,
                "Pattern {pi} bottom row col {col} must be 0");
        }
        for row in 0..TRI_ANCHOR_ROWS {
            assert_eq!(pattern[row][0], 0,
                "Pattern {pi} row {row} left col must be 0");
            assert_eq!(pattern[row][TRI_ANCHOR_COLS - 1], 0,
                "Pattern {pi} row {row} right col must be 0");
        }
    }
}

#[test]
fn tri_anchor_patterns_each_has_sync_dot() {
    for (pi, pattern) in TRI_ANCHOR_PATTERNS.iter().enumerate() {
        let count: usize = pattern.iter()
            .flat_map(|row| row.iter())
            .filter(|&&v| v == 1)
            .count();
        assert!(count >= 1,
            "Pattern {pi} must have at least 1 sync dot (State 1), got {count}");
    }
}

#[test]
fn tri_anchor_patterns_all_four_unique() {
    for i in 0..4 {
        for j in (i + 1)..4 {
            assert_ne!(TRI_ANCHOR_PATTERNS[i], TRI_ANCHOR_PATTERNS[j],
                "Patterns {i} and {j} must be distinct");
        }
    }
}

// -------------------------------------------------------------------
// CRC & Corner ID
// -------------------------------------------------------------------

#[test]
fn anchor_crc_values_correct() {
    // TL: (0+0)%3 = 0
    assert_eq!(compute_anchor_crc(0), 0);
    // TR: (0+1)%3 = 1
    assert_eq!(compute_anchor_crc(1), 1);
    // BL: (0+2)%3 = 2
    assert_eq!(compute_anchor_crc(2), 2);
    // BR: (1+0)%3 = 1
    assert_eq!(compute_anchor_crc(3), 1);
}

#[test]
fn anchor_verify_crc_all_pass() {
    for i in 0..4 {
        assert!(verify_anchor_crc(&TRI_ANCHOR_PATTERNS[i], i),
            "Pattern {i} should pass CRC verification");
    }
}

#[test]
fn anchor_crc_rejects_wrong_pattern() {
    // TL pattern should not verify as TR
    assert!(!verify_anchor_crc(&TRI_ANCHOR_PATTERNS[0], 1));
    assert!(!verify_anchor_crc(&TRI_ANCHOR_PATTERNS[0], 2));
    assert!(!verify_anchor_crc(&TRI_ANCHOR_PATTERNS[0], 3));
}

#[test]
fn anchor_detect_corner_id_all() {
    for i in 0..4 {
        assert_eq!(detect_corner_id(&TRI_ANCHOR_PATTERNS[i]), Some(i),
            "Should detect corner {i}");
    }
}

#[test]
fn anchor_detect_corner_id_unknown_returns_none() {
    let unknown = [[0u8; TRI_ANCHOR_COLS]; TRI_ANCHOR_ROWS];
    assert_eq!(detect_corner_id(&unknown), None);
}

// -------------------------------------------------------------------
// Non-Overlap
// -------------------------------------------------------------------

#[test]
fn tri_anchors_do_not_overlap_in_minimum_grid() {
    let rows = TRI_ANCHOR_ROWS * 2;  // 10
    let cols = TRI_ANCHOR_COLS * 2;  // 16
    let corners = tri_corner_positions(rows, cols);

    for row in 0..rows {
        for col in 0..cols {
            let count: usize = corners.iter()
                .filter(|&&(ac, ar, _)| {
                    col >= ac && col < ac + TRI_ANCHOR_COLS
                    && row >= ar && row < ar + TRI_ANCHOR_ROWS
                })
                .count();
            assert!(count <= 1,
                "Cell ({col},{row}) belongs to {count} anchors — overlap detected");
        }
    }
}

#[test]
fn anchor_detect_corner_id_takes_exact_patterns_only() {
    let mut p = TRI_ANCHOR_PATTERNS[2];
    assert_eq!(detect_corner_id(&p), Some(2));
    p[2][4] = 0;
    assert_eq!(detect_corner_id(&p), None);
}
