//! Anchor blocks in the four corners of a triangular grid.
//!
//! Each anchor occupies a `TRI_ANCHOR_ROWS × TRI_ANCHOR_COLS` block of
//! triangles: a black border (state 0), a white quiet zone (state 2), two
//! corner-ID trits, a CRC trit and a gray sync dot (state 1).
use vstd::prelude::*;

verus! {

/// Anchor block height in triangle rows.
pub const TRI_ANCHOR_ROWS: usize = 5;

/// Anchor block width in triangle columns.
pub const TRI_ANCHOR_COLS: usize = 8;

/// Corner ID trit pairs: TL = (0,0), TR = (0,1), BL = (0,2), BR = (1,0).
pub const CORNER_IDS: [[u8; 2]; 4] = [[0, 0], [0, 1], [0, 2], [1, 0]];

/// The four anchor patterns, `[row][col]`, indexed TL, TR, BL, BR.
pub const TRI_ANCHOR_PATTERNS: [[[u8; 8]; 5]; 4] = [
    [
        [0, 0, 0, 0, 0, 0, 0, 0],
        [0, 2, 2, 0, 0, 0, 0, 0],
        [0, 2, 2, 2, 1, 2, 2, 0],
        [0, 2, 2, 0, 0, 0, 2, 0],
        [0, 0, 0, 0, 0, 0, 0, 0],
    ],
    [
        [0, 0, 0, 0, 0, 0, 0, 0],
        [0, 0, 0, 0, 1, 1, 2, 0],
        [0, 2, 2, 1, 2, 2, 2, 0],
        [0, 2, 1, 1, 0, 2, 2, 0],
        [0, 0, 0, 0, 0, 0, 0, 0],
    ],
    [
        [0, 0, 0, 0, 0, 0, 0, 0],
        [0, 2, 2, 0, 2, 2, 2, 0],
        [0, 2, 2, 2, 1, 2, 2, 0],
        [0, 2, 2, 2, 0, 2, 2, 0],
        [0, 0, 0, 0, 0, 0, 0, 0],
    ],
    [
        [0, 0, 0, 0, 0, 0, 0, 0],
        [0, 2, 1, 1, 1, 0, 2, 0],
        [0, 2, 2, 1, 2, 2, 2, 0],
        [0, 2, 2, 1, 0, 2, 2, 0],
        [0, 0, 0, 0, 0, 0, 0, 0],
    ],
];

/// Cell `(r, c)` of anchor pattern `k`.
pub open spec fn pattern_cell(k: int, r: int, c: int) -> u8 {
    TRI_ANCHOR_PATTERNS[k][r][c]
}

/// `pattern` equals anchor pattern `k` cell by cell.
pub open spec fn matches_pattern(pattern: [[u8; 8]; 5], k: int) -> bool {
    forall|r: int, c: int| 0 <= r < 5 && 0 <= c < 8 ==> #[trigger] pattern[r][c] == pattern_cell(k, r, c)
}

/// Top-left cell `(col, row)` of corner `k`'s anchor in a `rows × cols` grid.
pub open spec fn corner_origin(k: int, rows: int, cols: int) -> (int, int) {
    if k == 0 {
        (0, 0)
    } else if k == 1 {
        (cols - 8, 0)
    } else if k == 2 {
        (0, rows - 5)
    } else {
        (cols - 8, rows - 5)
    }
}

/// `(col, row)` lies in the anchor block of corner `k`.
pub open spec fn in_corner(k: int, col: int, row: int, rows: int, cols: int) -> bool {
    let (ac, ar) = corner_origin(k, rows, cols);
    ac <= col < ac + 8 && ar <= row < ar + 5
}

/// `(col, row)` lies in one of the four anchor blocks.
pub open spec fn in_anchor_region(col: int, row: int, rows: int, cols: int) -> bool {
    exists|k: int| 0 <= k < 4 && #[trigger] in_corner(k, col, row, rows, cols)
}

/// The CRC trit of corner `corner_index`: the sum of its ID trits modulo 3.
pub fn compute_anchor_crc(corner_index: usize) -> (r: u8)
    requires
        corner_index < 4,
    ensures
        r == (CORNER_IDS[corner_index as int][0] + CORNER_IDS[corner_index as int][1]) % 3,
{
    let id = CORNER_IDS[corner_index];
    (id[0] + id[1]) % 3
}

/// Whether `pattern` is exactly the anchor pattern of corner `corner_index`.
pub fn verify_anchor_crc(pattern: &[[u8; 8]; 5], corner_index: usize) -> (r: bool)
    requires
        corner_index < 4,
    ensures
        r == matches_pattern(*pattern, corner_index as int),
{
    let expected = &TRI_ANCHOR_PATTERNS[corner_index];
    let mut r: usize = 0;
    while r < 5
        invariant
            0 <= r <= 5,
            corner_index < 4,
            *expected == TRI_ANCHOR_PATTERNS[corner_index as int],
            forall|rr: int, c: int| 0 <= rr < r && 0 <= c < 8 ==> #[trigger] pattern[rr][c] == pattern_cell(corner_index as int, rr, c),
        decreases 5 - r,
    {
        let mut c: usize = 0;
        while c < 8
            invariant
                0 <= r < 5,
                0 <= c <= 8,
                corner_index < 4,
                *expected == TRI_ANCHOR_PATTERNS[corner_index as int],
                forall|rr: int, cc: int| 0 <= rr < r && 0 <= cc < 8 ==> #[trigger] pattern[rr][cc] == pattern_cell(corner_index as int, rr, cc),
                forall|cc: int| 0 <= cc < c ==> #[trigger] pattern[r as int][cc] == pattern_cell(corner_index as int, r as int, cc),
            decreases 8 - c,
        {
            if pattern[r][c] != expected[r][c] {
                return false;
            }
            c = c + 1;
        }
        r = r + 1;
    }
    true
}

/// The corner whose anchor pattern `pattern` is, if any (the first match).
pub fn detect_corner_id(pattern: &[[u8; 8]; 5]) -> (r: Option<usize>)
    ensures
        match r {
            Some(k) => k < 4 && matches_pattern(*pattern, k as int) && forall|j: int|
                0 <= j < k ==> !#[trigger] matches_pattern(*pattern, j),
            None => forall|j: int| 0 <= j < 4 ==> !#[trigger] matches_pattern(*pattern, j),
        },
{
    let mut k: usize = 0;
    while k < 4
        invariant
            0 <= k <= 4,
            forall|j: int| 0 <= j < k ==> !#[trigger] matches_pattern(*pattern, j),
        decreases 4 - k,
    {
        if verify_anchor_crc(pattern, k) {
            return Some(k);
        }
        k = k + 1;
    }
    None
}

/// Corner positions `(col, row, pattern_index)` for the anchors of a
/// `rows × cols` grid, in the order TL, TR, BL, BR.
pub fn tri_corner_positions(rows: usize, cols: usize) -> (r: [(usize, usize, usize); 4])
    requires
        rows >= TRI_ANCHOR_ROWS,
        cols >= TRI_ANCHOR_COLS,
    ensures
        forall|k: int|
            0 <= k < 4 ==> (#[trigger] r[k]).0 == corner_origin(k, rows as int, cols as int).0 && r[k].1
                == corner_origin(k, rows as int, cols as int).1 && r[k].2 == k,
{
    [
        (0, 0, 0),
        (cols - TRI_ANCHOR_COLS, 0, 1),
        (0, rows - TRI_ANCHOR_ROWS, 2),
        (cols - TRI_ANCHOR_COLS, rows - TRI_ANCHOR_ROWS, 3),
    ]
}

/// Whether `(col, row)` lies inside any of the four anchor blocks.
pub fn is_in_tri_anchor_region(col: usize, row: usize, grid_rows: usize, grid_cols: usize) -> (r: bool)
    requires
        grid_rows >= TRI_ANCHOR_ROWS,
        grid_cols >= TRI_ANCHOR_COLS,
    ensures
        r == in_anchor_region(col as int, row as int, grid_rows as int, grid_cols as int),
{
    let corners = tri_corner_positions(grid_rows, grid_cols);
    let mut k: usize = 0;
    while k < 4
        invariant
            0 <= k <= 4,
            grid_rows >= TRI_ANCHOR_ROWS,
            grid_cols >= TRI_ANCHOR_COLS,
            forall|j: int|
                0 <= j < 4 ==> (#[trigger] corners[j]).0 == corner_origin(j, grid_rows as int, grid_cols as int).0
                    && corners[j].1 == corner_origin(j, grid_rows as int, grid_cols as int).1,
            forall|j: int| 0 <= j < k ==> !#[trigger] in_corner(j, col as int, row as int, grid_rows as int, grid_cols as int),
        decreases 4 - k,
    {
        let (ac, ar, _) = corners[k];
        if col >= ac && col < ac + TRI_ANCHOR_COLS && row >= ar && row < ar + TRI_ANCHOR_ROWS {
            assert(in_corner(k as int, col as int, row as int, grid_rows as int, grid_cols as int));
            return true;
        }
        k = k + 1;
    }
    false
}

/// The four anchor patterns are pairwise different, so each pattern
/// identifies its corner: `detect_corner_id` on pattern `k` gives `k`.
pub proof fn law_anchor_patterns_distinct(i: int, j: int)
    requires
        0 <= i < 4,
        0 <= j < 4,
    ensures
        matches_pattern(TRI_ANCHOR_PATTERNS[i], j) <==> i == j,
{
    if i != j {
        // a cell in which the two patterns differ
        let (r, c) = if (i == 0 && j == 1) || (i == 1 && j == 0) {
            (1int, 1int)
        } else if (i == 0 && j == 2) || (i == 2 && j == 0) {
            (1int, 4int)
        } else if (i == 0 && j == 3) || (i == 3 && j == 0) {
            (1int, 2int)
        } else if (i == 1 && j == 2) || (i == 2 && j == 1) {
            (1int, 1int)
        } else if (i == 1 && j == 3) || (i == 3 && j == 1) {
            (1int, 1int)
        } else {
            (1int, 2int)
        };
        assert(TRI_ANCHOR_PATTERNS[i][r][c] != pattern_cell(j, r, c));
    }
}

/// A pattern matches at most one corner's anchor, so `detect_corner_id`
/// gives `Some(i)` exactly when the pattern matches corner `i`, and `None`
/// when it matches none.
pub proof fn law_pattern_matches_one_corner(pattern: [[u8; 8]; 5], i: int, j: int)
    requires
        0 <= i < 4,
        0 <= j < 4,
        matches_pattern(pattern, i),
        matches_pattern(pattern, j),
    ensures
        i == j,
{
    assert forall|r: int, c: int| 0 <= r < 5 && 0 <= c < 8 implies #[trigger] TRI_ANCHOR_PATTERNS[i][r][c]
        == pattern_cell(j, r, c) by {
        assert(pattern[r][c] == pattern_cell(i, r, c));
        assert(pattern[r][c] == pattern_cell(j, r, c));
    }
    assert(matches_pattern(TRI_ANCHOR_PATTERNS[i], j));
    law_anchor_patterns_distinct(i, j);
}

/// Every anchor pattern has a black outer ring and contains a gray sync
/// dot (state 1).
pub proof fn law_anchor_pattern_shape(k: int)
    requires
        0 <= k < 4,
    ensures
        forall|c: int| 0 <= c < 8 ==> #[trigger] pattern_cell(k, 0, c) == 0 && pattern_cell(k, 4, c) == 0,
        forall|r: int| 0 <= r < 5 ==> #[trigger] pattern_cell(k, r, 0) == 0 && pattern_cell(k, r, 7) == 0,
        exists|r: int, c: int| 0 <= r < 5 && 0 <= c < 8 && #[trigger] pattern_cell(k, r, c) == 1,
{
    assert(pattern_cell(k, 2, 4) == 1 || pattern_cell(k, 1, 4) == 1);
    if pattern_cell(k, 2, 4) == 1 {
        assert(pattern_cell(k, 2, 4) == 1);
    } else {
        assert(pattern_cell(k, 1, 4) == 1);
    }
}

/// On a grid of at least 10 rows and 16 columns the four anchor blocks do
/// not overlap.
pub proof fn law_anchor_blocks_disjoint(k1: int, k2: int, col: int, row: int, rows: int, cols: int)
    requires
        0 <= k1 < 4,
        0 <= k2 < 4,
        k1 != k2,
        rows >= 2 * TRI_ANCHOR_ROWS,
        cols >= 2 * TRI_ANCHOR_COLS,
    ensures
        !(in_corner(k1, col, row, rows, cols) && in_corner(k2, col, row, rows, cols)),
{
}

} // verus!
