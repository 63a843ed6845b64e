//! Parity-constrained layout of a payload on a triangular grid.
//!
//! The non-anchor cells of the grid, taken in row-major order, carry a
//! 12-trit length prefix followed by a Reed-Solomon codeword over GF(3⁶)
//! (six trits per symbol). The codeword is `[parity ‖ data]`; the message
//! block (a three-symbol header and the payload) sits at the first symbol
//! offset where it does not collide with a font constraint. Constrained cells
//! keep their required state and the remaining trits are found by solving
//! the trit-level parity-check equations over GF(3).
use vstd::prelude::*;
use crate::codec::{encode_length, spec_length_trits};
use crate::gauss::{Gf3Matrix, in_span_before, lemma_last_difference, solve_gf3_with_targets, to_ints};
use crate::gf3::{
    GF3, FIELD_ORDER, digit, gf_exp, gf_mul, symbol_of, prefix6, symbol_to_trits, trits_to_symbol,
};
use crate::modular::{cong3, entry3, row_dot};
use crate::solver::{ConstraintMask, SolverError};
use crate::tri_anchor::{
    TRI_ANCHOR_COLS, TRI_ANCHOR_PATTERNS, TRI_ANCHOR_ROWS, corner_origin, in_anchor_region, in_corner,
    is_in_tri_anchor_region, pattern_cell, tri_corner_positions,
};
use crate::trigrid::TriGrid;

verus! {

// ---------------------------------------------------------------------------
// Row-major enumeration of the data cells
// ---------------------------------------------------------------------------

/// Cell `k` of a grid with `cols` columns in row-major order, as `(col, row)`.
pub open spec fn cell_at(k: int, cols: int) -> (usize, usize) {
    ((k % cols) as usize, (k / cols) as usize)
}

/// The row-major index of a cell.
pub open spec fn row_major(p: (usize, usize), cols: int) -> int {
    p.1 * cols + p.0
}

/// The cell lies outside the four anchor blocks.
pub open spec fn outside_anchors(rows: usize, cols: usize) -> spec_fn((usize, usize)) -> bool {
    |p: (usize, usize)| !in_anchor_region(p.0 as int, p.1 as int, rows as int, cols as int)
}

/// The data cells among the first `k` cells in row-major order.
pub open spec fn flat_coords_upto(rows: usize, cols: usize, k: int) -> Seq<(usize, usize)> {
    Seq::new(k as nat, |i: int| cell_at(i, cols as int)).filter(outside_anchors(rows, cols))
}

/// All data cells of a `rows × cols` grid in row-major order.
pub open spec fn spec_flat_coords(rows: usize, cols: usize) -> Seq<(usize, usize)> {
    flat_coords_upto(rows, cols, rows * cols)
}

/// `row` is one of the five top or five bottom rows, which hold anchors.
pub open spec fn anchor_row(row: int, rows: int) -> bool {
    row < 5 || row >= rows - 5
}

/// Anchor cells among columns `0 .. c` of an anchor row.
pub open spec fn anchor_cols_upto(c: int, cols: int) -> int {
    (if c < 8 { c } else { 8 }) + (if c > cols - 8 { c - (cols - 8) } else { 0 })
}

/// Anchor rows among rows `0 .. r`.
pub open spec fn anchor_rows_upto(r: int, rows: int) -> int {
    (if r < 5 { r } else { 5 }) + (if r > rows - 5 { r - (rows - 5) } else { 0 })
}

/// In a grid of at least 10 × 16 cells, the anchor cells are the first and
/// last eight columns of the first and last five rows.
proof fn lemma_anchor_cell(col: int, row: int, rows: int, cols: int)
    requires
        rows >= 10,
        cols >= 16,
        0 <= col < cols,
        0 <= row < rows,
    ensures
        in_anchor_region(col, row, rows, cols) <==> (anchor_row(row, rows) && (col < 8 || col >= cols - 8)),
{
    if in_anchor_region(col, row, rows, cols) {
        let k = choose|k: int| 0 <= k < 4 && #[trigger] in_corner(k, col, row, rows, cols);
        if k == 0 {
        } else if k == 1 {
        } else if k == 2 {
        } else {
        }
    }
    if anchor_row(row, rows) && (col < 8 || col >= cols - 8) {
        if row < 5 && col < 8 {
            assert(in_corner(0, col, row, rows, cols));
        } else if row < 5 {
            assert(in_corner(1, col, row, rows, cols));
        } else if col < 8 {
            assert(in_corner(2, col, row, rows, cols));
        } else {
            assert(in_corner(3, col, row, rows, cols));
        }
    }
}

/// One more cell adds one data cell unless it is an anchor cell.
proof fn lemma_flat_step(rows: usize, cols: usize, k: int)
    requires
        k >= 0,
    ensures
        flat_coords_upto(rows, cols, k + 1).len() == flat_coords_upto(rows, cols, k).len() + (if outside_anchors(
            rows,
            cols,
        )(cell_at(k, cols as int)) {
            1int
        } else {
            0int
        }),
{
    let f = |i: int| cell_at(i, cols as int);
    assert(Seq::new((k + 1) as nat, f) =~= Seq::new(k as nat, f).push(cell_at(k, cols as int)));
    Seq::new(k as nat, f).lemma_filter_len_push(outside_anchors(rows, cols), cell_at(k, cols as int));
}

/// Counting along one row.
proof fn lemma_flat_row(rows: usize, cols: usize, r: int, c: int)
    requires
        rows >= 10,
        cols >= 16,
        0 <= r < rows,
        0 <= c <= cols,
    ensures
        flat_coords_upto(rows, cols, r * cols + c).len() == flat_coords_upto(rows, cols, r * cols).len() + c - (
        if anchor_row(r, rows as int) {
            anchor_cols_upto(c, cols as int)
        } else {
            0
        }),
    decreases c,
{
    if c > 0 {
        lemma_flat_row(rows, cols, r, c - 1);
        let k = r * cols + (c - 1);
        assert(r * cols >= 0) by (nonlinear_arith)
            requires
                r >= 0,
                cols >= 0,
        ;
        lemma_flat_step(rows, cols, k);
        vstd::arithmetic::div_mod::lemma_fundamental_div_mod_converse(k, cols as int, r, c - 1);
        assert(cell_at(k, cols as int) == ((c - 1) as usize, r as usize));
        lemma_anchor_cell(c - 1, r, rows as int, cols as int);
        assert(k + 1 == r * cols + c);
    }
}

/// Counting over whole rows.
proof fn lemma_flat_rows(rows: usize, cols: usize, r: int)
    requires
        rows >= 10,
        cols >= 16,
        0 <= r <= rows,
    ensures
        flat_coords_upto(rows, cols, r * cols).len() == r * cols - 16 * anchor_rows_upto(r, rows as int),
    decreases r,
{
    if r == 0 {
        assert(flat_coords_upto(rows, cols, 0) =~= Seq::<(usize, usize)>::empty());
    } else {
        lemma_flat_rows(rows, cols, r - 1);
        lemma_flat_row(rows, cols, r - 1, cols as int);
        assert((r - 1) * cols + cols == r * cols) by (nonlinear_arith);
    }
}

/// The data cells are all cells but the 160 anchor cells (four blocks of
/// 5 × 8), for every grid of at least 10 × 16 cells.
pub proof fn law_flat_coords_count(rows: usize, cols: usize)
    requires
        rows >= 2 * TRI_ANCHOR_ROWS,
        cols >= 2 * TRI_ANCHOR_COLS,
    ensures
        spec_flat_coords(rows, cols).len() == rows * cols - 4 * TRI_ANCHOR_ROWS * TRI_ANCHOR_COLS,
{
    lemma_flat_rows(rows, cols, rows as int);
}

/// Deterministic row-major mapping from the triangular grid to flat trit
/// indices: the cells outside the anchor blocks, row by row, as `(col, row)`.
pub fn tri_grid_to_flat_coords(rows: usize, cols: usize) -> (coords: Vec<(usize, usize)>)
    requires
        rows >= TRI_ANCHOR_ROWS,
        cols >= TRI_ANCHOR_COLS,
        rows * cols <= usize::MAX,
    ensures
        coords@ == spec_flat_coords(rows, cols),
        coords@.len() <= rows * cols,
        forall|i: int|
            0 <= i < coords@.len() ==> (#[trigger] coords@[i]).0 < cols && coords@[i].1 < rows
                && !in_anchor_region(coords@[i].0 as int, coords@[i].1 as int, rows as int, cols as int),
        forall|i: int, j: int|
            0 <= i < j < coords@.len() ==> row_major(#[trigger] coords@[i], cols as int) < row_major(
                #[trigger] coords@[j],
                cols as int,
            ),
{
    let mut coords: Vec<(usize, usize)> = Vec::new();
    let mut row: usize = 0;
    while row < rows
        invariant
            rows >= TRI_ANCHOR_ROWS,
            cols >= TRI_ANCHOR_COLS,
            rows * cols <= usize::MAX,
            0 <= row <= rows,
            coords@ == flat_coords_upto(rows, cols, row * cols),
            coords@.len() <= row * cols,
            forall|i: int|
                0 <= i < coords@.len() ==> (#[trigger] coords@[i]).0 < cols && coords@[i].1 < row
                    && !in_anchor_region(coords@[i].0 as int, coords@[i].1 as int, rows as int, cols as int)
                    && row_major(coords@[i], cols as int) < row * cols,
            forall|i: int, j: int|
                0 <= i < j < coords@.len() ==> row_major(#[trigger] coords@[i], cols as int) < row_major(
                    #[trigger] coords@[j],
                    cols as int,
                ),
        decreases rows - row,
    {
        let mut col: usize = 0;
        while col < cols
            invariant
                rows >= TRI_ANCHOR_ROWS,
                cols >= TRI_ANCHOR_COLS,
                rows * cols <= usize::MAX,
                0 <= row < rows,
                0 <= col <= cols,
                coords@ == flat_coords_upto(rows, cols, row * cols + col),
                coords@.len() <= row * cols + col,
                forall|i: int|
                    0 <= i < coords@.len() ==> (#[trigger] coords@[i]).0 < cols && coords@[i].1 <= row
                        && !in_anchor_region(coords@[i].0 as int, coords@[i].1 as int, rows as int, cols as int)
                        && row_major(coords@[i], cols as int) < row * cols + col,
                forall|i: int, j: int|
                    0 <= i < j < coords@.len() ==> row_major(#[trigger] coords@[i], cols as int) < row_major(
                        #[trigger] coords@[j],
                        cols as int,
                    ),
            decreases cols - col,
        {
            let ghost k: int = row * cols + col;
            proof {
                crate::modular::lemma_index_bound(row as int, col as int, rows as int, cols as int);
                crate::modular::lemma_index_row_col(row as int, col as int, cols as int);
                let f = |i: int| cell_at(i, cols as int);
                let s1 = Seq::new((k + 1) as nat, f);
                assert(s1.drop_last() =~= Seq::new(k as nat, f));
                assert(s1.last() == (col, row));
                reveal(Seq::filter);
                assert(flat_coords_upto(rows, cols, k + 1) == (if outside_anchors(rows, cols)((col, row)) {
                    flat_coords_upto(rows, cols, k).push((col, row))
                } else {
                    flat_coords_upto(rows, cols, k)
                }));
            }
            if !is_in_tri_anchor_region(col, row, rows, cols) {
                coords.push((col, row));
            }
            col = col + 1;
        }
        proof {
            assert((row + 1) * cols == row * cols + cols) by (nonlinear_arith);
        }
        row = row + 1;
    }
    coords
}

// ---------------------------------------------------------------------------
// Parity budget
// ---------------------------------------------------------------------------

/// Number of parity symbols for a codeword of `n` symbols: 30 % of the
/// symbols rounded up (`⌈3n/10⌉`), made even, and clamped to `[2, 728]`.
pub open spec fn spec_parity_count(n: nat) -> nat {
    let raw = (3 * n + 9) / 10;
    let even = if raw % 2 == 1 { raw + 1 } else { raw };
    let capped = if even > 728 { 728 } else { even };
    if capped < 2 { 2 } else { capped }
}

/// Number of parity symbols for a codeword of `num_symbols` symbols.
pub fn parity_symbol_count(num_symbols: usize) -> (p: usize)
    ensures
        p == spec_parity_count(num_symbols as nat),
        2 <= p <= 728,
{
    let raw: usize = ((3 * (num_symbols as u128) + 9) / 10) as usize;
    let even = if raw % 2 == 1 { raw + 1 } else { raw };
    let capped = if even > 728 { 728 } else { even };
    if capped < 2 { 2 } else { capped }
}

// ---------------------------------------------------------------------------
// Trit-level parity-check equations
// ---------------------------------------------------------------------------

/// Entry `(i, j)` of the parity-check matrix: `α^((i+1)·j)`, so that row `i`
/// evaluates the codeword polynomial at `α^(i+1)`.
pub open spec fn check_entry(i: nat, j: nat) -> nat {
    gf_exp((((i + 1) * j) % 728) as nat)
}

/// Entry `(r, c)` of the GF(3) matrix of multiplication by `h`: trit `r` of
/// `h · α^c`.
pub open spec fn transform_entry(h: nat, r: nat, c: nat) -> nat {
    digit(gf_mul(h, gf_exp(c)), r)
}

/// Coefficient of codeword trit `f` in trit equation `e` (equation `e` is
/// trit `e % 6` of parity check `e / 6`; trit `f` is trit `f % 6` of symbol
/// `f / 6`).
pub open spec fn eq_coeff(e: int, f: int) -> int {
    transform_entry(check_entry((e / 6) as nat, (f / 6) as nat), (e % 6) as nat, (f % 6) as nat) as int
}

/// `Σ_{f < n} eq_coeff(e, f) · w[f]`.
pub open spec fn parity_sum(e: int, w: Seq<int>, n: int) -> int
    decreases n,
{
    if n <= 0 {
        0
    } else {
        parity_sum(e, w, n - 1) + eq_coeff(e, n - 1) * w[n - 1]
    }
}

/// The first `cw` trits of `w` satisfy all `6 · parity` trit equations.
pub open spec fn parity_holds(w: Seq<int>, parity: nat, cw: nat) -> bool {
    forall|e: int| 0 <= e < 6 * parity ==> #[trigger] parity_sum(e, w, cw as int) % 3 == 0
}

/// The parity-check matrix `H[i][j] = α^((i+1)·j)` of a Reed-Solomon code
/// with `parity_count` check symbols over `n` codeword symbols.
pub fn build_parity_check_matrix(gf: &GF3, n: usize, parity_count: usize) -> (h: Vec<Vec<u16>>)
    requires
        gf.wf(),
    ensures
        h@.len() == parity_count,
        forall|i: int| 0 <= i < parity_count ==> (#[trigger] h@[i])@.len() == n,
        forall|i: int, j: int|
            0 <= i < parity_count && 0 <= j < n ==> #[trigger] h@[i]@[j] == check_entry(i as nat, j as nat),
{
    let mut h: Vec<Vec<u16>> = Vec::new();
    let mut i: usize = 0;
    while i < parity_count
        invariant
            gf.wf(),
            0 <= i <= parity_count,
            h@.len() == i,
            forall|a: int| 0 <= a < i ==> (#[trigger] h@[a])@.len() == n,
            forall|a: int, j: int|
                0 <= a < i && 0 <= j < n ==> #[trigger] h@[a]@[j] == check_entry(a as nat, j as nat),
        decreases parity_count - i,
    {
        let mut row: Vec<u16> = Vec::new();
        let step = (i % FIELD_ORDER + 1) % FIELD_ORDER;
        let mut j: usize = 0;
        while j < n
            invariant
                gf.wf(),
                0 <= i < parity_count,
                0 <= j <= n,
                step == ((i + 1) % 728) as usize,
                step < 728,
                row@.len() == j,
                forall|b: int| 0 <= b < j ==> #[trigger] row@[b] == check_entry(i as nat, b as nat),
            decreases n - j,
        {
            let jm = j % FIELD_ORDER;
            proof {
                assert(step * jm < 728 * 728) by (nonlinear_arith)
                    requires
                        step < 728,
                        jm < 728,
                ;
            }
            let e = (step * jm) % FIELD_ORDER;
            proof {
                assert(e == ((i + 1) * j) % 728) by (nonlinear_arith)
                    requires
                        step == (i + 1) % 728,
                        jm == j % 728,
                        e == (step * jm) % 728,
                {
                    vstd::arithmetic::div_mod::lemma_mul_mod_noop_general((i + 1) as int, j as int, 728);
                }
            }
            let v = gf.exp(e);
            row.push(v);
            j = j + 1;
        }
        h.push(row);
        i = i + 1;
    }
    h
}

/// The GF(3) matrix of multiplication by `h` on the trit vectors of symbols:
/// entry `[r][c]` is trit `r` of `h · α^c`.
pub fn compute_transform_matrix(gf: &GF3, h: u16) -> (t: [[u64; 6]; 6])
    requires
        gf.wf(),
    ensures
        forall|r: int, c: int|
            0 <= r < 6 && 0 <= c < 6 ==> #[trigger] t[r][c] == transform_entry(h as nat, r as nat, c as nat),
        forall|r: int, c: int| 0 <= r < 6 && 0 <= c < 6 ==> #[trigger] t[r][c] < 3,
{
    let mut t = [[0u64; 6]; 6];
    let mut c: usize = 0;
    while c < 6
        invariant
            gf.wf(),
            0 <= c <= 6,
            forall|r: int, cc: int|
                0 <= r < 6 && 0 <= cc < c ==> #[trigger] t[r][cc] == transform_entry(h as nat, r as nat, cc as nat),
            forall|r: int, cc: int| 0 <= r < 6 && 0 <= cc < c ==> #[trigger] t[r][cc] < 3,
        decreases 6 - c,
    {
        let v = gf.mul(h, gf.exp(c));
        let trits = symbol_to_trits(v);
        let mut r: usize = 0;
        while r < 6
            invariant
                gf.wf(),
                0 <= c < 6,
                0 <= r <= 6,
                v == gf_mul(h as nat, gf_exp(c as nat)),
                forall|k: int| 0 <= k < 6 ==> #[trigger] trits@[k] == digit(v as nat, k as nat),
                forall|k: int| 0 <= k < 6 ==> #[trigger] trits@[k] < 3,
                forall|rr: int, cc: int|
                    0 <= rr < 6 && 0 <= cc < c ==> #[trigger] t[rr][cc] == transform_entry(h as nat, rr as nat, cc as nat),
                forall|rr: int, cc: int| 0 <= rr < 6 && 0 <= cc < c ==> #[trigger] t[rr][cc] < 3,
                forall|rr: int| 0 <= rr < r ==> #[trigger] t[rr][c as int] == transform_entry(h as nat, rr as nat, c as nat),
                forall|rr: int| 0 <= rr < r ==> #[trigger] t[rr][c as int] < 3,
            decreases 6 - r,
        {
            t[r][c] = trits[r] as u64;
            r = r + 1;
        }
        c = c + 1;
    }
    t
}

// ---------------------------------------------------------------------------
// Layout of the message block
// ---------------------------------------------------------------------------

/// Codeword symbols that fit after the length prefix in `n` data cells.
pub open spec fn num_symbols_for(n: nat) -> nat {
    if n >= 12 {
        ((n - 12) / 6) as nat
    } else {
        0
    }
}

/// Symbols of the message block for a payload of `len` trits: a three-symbol
/// header and the payload packed six trits per symbol.
pub open spec fn msg_symbols_for(len: nat) -> nat {
    3 + (len + 5) / 6
}

/// The largest message offset tried.
pub open spec fn max_offset_for(ns: nat, p: nat, ms: nat) -> nat {
    if ns >= p + ms {
        (ns - p - ms) as nat
    } else {
        0
    }
}

/// The state required at `(col, row)` by the last constraint naming that cell.
pub open spec fn last_constraint(cs: Seq<ConstraintMask>, col: int, row: int) -> Option<u8>
    decreases cs.len(),
{
    if cs.len() == 0 {
        None
    } else if cs.last().x == col && cs.last().y == row {
        Some(cs.last().required_state)
    } else {
        last_constraint(cs.drop_last(), col, row)
    }
}

/// The constraint state of data cell `f`.
pub open spec fn cell_constraint(coords: Seq<(usize, usize)>, cs: Seq<ConstraintMask>, f: int) -> Option<u8> {
    last_constraint(cs, coords[f].0 as int, coords[f].1 as int)
}

/// Codeword trit `idx` lies in the message block placed at symbol offset `o`
/// after `p` parity symbols.
pub open spec fn in_message(idx: int, p: nat, o: nat, ms: nat) -> bool {
    6 * (p + o) <= idx < 6 * (p + o) + 6 * ms
}

/// Offset `o` is blocked: a constrained cell lies in the length prefix or in
/// the message block.
pub open spec fn offset_blocked(
    coords: Seq<(usize, usize)>,
    cs: Seq<ConstraintMask>,
    ns: nat,
    p: nat,
    ms: nat,
    o: nat,
) -> bool {
    exists|f: int|
        0 <= f < coords.len() && f < 12 + 6 * ns && #[trigger] cell_constraint(coords, cs, f) is Some && (f < 12
            || in_message(f - 12, p, o, ms))
}

/// Trit `i` of the payload padded with zeros.
pub open spec fn padded_trit(payload: Seq<u8>, i: int) -> u8 {
    if 0 <= i < payload.len() {
        payload[i]
    } else {
        0
    }
}

/// Payload symbol `k`: trits `6k .. 6k + 6` of the padded payload.
pub open spec fn data_symbol(payload: Seq<u8>, k: int) -> nat {
    symbol_of(Seq::new(6, |i: int| padded_trit(payload, 6 * k + i)))
}

/// Symbol `k` of the message block: `[len % 729, len / 729, p]` (each kept
/// in 16 bits) followed by the payload symbols.
pub open spec fn message_symbol(payload: Seq<u8>, p: nat, k: int) -> nat {
    if k == 0 {
        payload.len() % 729
    } else if k == 1 {
        (payload.len() / 729) % 65536
    } else if k == 2 {
        p
    } else {
        data_symbol(payload, k - 3)
    }
}

/// Trit `q` of the message block.
pub open spec fn message_trit(payload: Seq<u8>, p: nat, q: int) -> u8 {
    digit(message_symbol(payload, p, q / 6), (q % 6) as nat) as u8
}

/// The value codeword trit `idx` is pinned to, if any: message trits first,
/// then font constraints.
pub open spec fn fixed_trit(
    payload: Seq<u8>,
    coords: Seq<(usize, usize)>,
    cs: Seq<ConstraintMask>,
    p: nat,
    o: nat,
    idx: int,
) -> Option<u8> {
    if in_message(idx, p, o, msg_symbols_for(payload.len())) {
        Some(message_trit(payload, p, idx - 6 * (p + o)))
    } else {
        cell_constraint(coords, cs, 12 + idx)
    }
}

/// `w` takes every pinned value.
pub open spec fn agrees_with_fixed(
    w: Seq<int>,
    payload: Seq<u8>,
    coords: Seq<(usize, usize)>,
    cs: Seq<ConstraintMask>,
    p: nat,
    o: nat,
    cw: nat,
) -> bool {
    forall|idx: int|
        0 <= idx < cw && #[trigger] fixed_trit(payload, coords, cs, p, o, idx) is Some ==> w[idx]
            == fixed_trit(payload, coords, cs, p, o, idx)->0 as int
}

/// The parity symbols and the message block of a payload of `len` trits fit
/// in the codeword of a grid with `n` data cells.
pub open spec fn message_fits(len: nat, n: nat) -> bool {
    spec_parity_count(num_symbols_for(n)) + msg_symbols_for(len) <= num_symbols_for(n)
}

/// `o` is the first offset that is not blocked.
pub open spec fn first_free_offset(
    coords: Seq<(usize, usize)>,
    cs: Seq<ConstraintMask>,
    ns: nat,
    p: nat,
    ms: nat,
    o: nat,
) -> bool {
    &&& o <= max_offset_for(ns, p, ms)
    &&& !offset_blocked(coords, cs, ns, p, ms, o)
    &&& forall|o2: nat| o2 < o ==> #[trigger] offset_blocked(coords, cs, ns, p, ms, o2)
}

/// The trits a grid carries in its codeword cells.
pub open spec fn codeword_of(g: TriGrid, coords: Seq<(usize, usize)>, cw: nat) -> Seq<int> {
    Seq::new(cw, |i: int| g.cell(coords[12 + i].0 as int, coords[12 + i].1 as int) as int)
}

/// The state of the last constraint at `(col, row)`.
fn find_constraint(cs: &[ConstraintMask], col: usize, row: usize) -> (r: Option<u8>)
    ensures
        r == last_constraint(cs@, col as int, row as int),
{
    let mut i = cs.len();
    assert(cs@.subrange(0, i as int) =~= cs@);
    while i > 0
        invariant
            i <= cs@.len(),
            last_constraint(cs@, col as int, row as int) == last_constraint(cs@.subrange(0, i as int), col as int, row as int),
        decreases i,
    {
        let ghost s = cs@.subrange(0, i as int);
        assert(s.drop_last() =~= cs@.subrange(0, i - 1));
        if cs[i - 1].x == col && cs[i - 1].y == row {
            return Some(cs[i - 1].required_state);
        }
        i = i - 1;
    }
    None
}

/// The message block: the six trits of each message symbol.
fn message_trits(payload: &[u8], parity: usize) -> (m: Vec<u8>)
    requires
        payload@.len() <= usize::MAX / 2,
        parity <= 728,
    ensures
        m@.len() == 6 * msg_symbols_for(payload@.len()),
        forall|q: int| 0 <= q < m@.len() ==> #[trigger] m@[q] == message_trit(payload@, parity as nat, q),
        forall|q: int| 0 <= q < m@.len() ==> #[trigger] m@[q] < 3,
{
    let len = payload.len();
    let nd = (len + 5) / 6;
    let ms = 3 + nd;
    let mut m: Vec<u8> = Vec::new();
    let mut k: usize = 0;
    while k < ms
        invariant
            payload@.len() == len,
            len <= usize::MAX / 2,
            parity <= 728,
            nd == (len + 5) / 6,
            ms == 3 + nd,
            0 <= k <= ms,
            m@.len() == 6 * k,
            forall|q: int| 0 <= q < m@.len() ==> #[trigger] m@[q] == message_trit(payload@, parity as nat, q),
            forall|q: int| 0 <= q < m@.len() ==> #[trigger] m@[q] < 3,
        decreases ms - k,
    {
        let sym: u16 = if k == 0 {
            (len % 729) as u16
        } else if k == 1 {
            ((len / 729) % 65536) as u16
        } else if k == 2 {
            parity as u16
        } else {
            let mut chunk: Vec<u8> = Vec::new();
            let mut t: usize = 0;
            while t < 6
                invariant
                    3 <= k < ms,
                    ms == 3 + nd,
                    nd == (len + 5) / 6,
                    payload@.len() == len,
                    len <= usize::MAX / 2,
                    0 <= t <= 6,
                    chunk@.len() == t,
                    forall|i: int| 0 <= i < t ==> #[trigger] chunk@[i] == padded_trit(payload@, 6 * (k - 3) + i),
                decreases 6 - t,
            {
                let pos = 6 * (k - 3) + t;
                if pos < len {
                    chunk.push(payload[pos]);
                } else {
                    chunk.push(0);
                }
                t = t + 1;
            }
            proof {
                assert(prefix6(chunk@) =~= Seq::new(6, |i: int| padded_trit(payload@, 6 * (k - 3) + i)));
            }
            trits_to_symbol(&chunk)
        };
        proof {
            assert(sym as nat == message_symbol(payload@, parity as nat, k as int));
        }
        let trits = symbol_to_trits(sym);
        let mut t: usize = 0;
        while t < 6
            invariant
                0 <= k < ms,
                ms == 3 + nd,
                len <= usize::MAX / 2,
                nd == (len + 5) / 6,
                payload@.len() == len,
                parity <= 728,
                0 <= t <= 6,
                m@.len() == 6 * k + t,
                sym as nat == message_symbol(payload@, parity as nat, k as int),
                forall|i: int| 0 <= i < 6 ==> #[trigger] trits@[i] == digit(sym as nat, i as nat),
                forall|i: int| 0 <= i < 6 ==> #[trigger] trits@[i] < 3,
                forall|q: int| 0 <= q < m@.len() ==> #[trigger] m@[q] == message_trit(payload@, parity as nat, q),
                forall|q: int| 0 <= q < m@.len() ==> #[trigger] m@[q] < 3,
            decreases 6 - t,
        {
            proof {
                crate::modular::lemma_index_row_col(k as int, t as int, 6);
            }
            m.push(trits[t]);
            t = t + 1;
        }
        k = k + 1;
    }
    m
}

// ---------------------------------------------------------------------------
// The linear system over the free trits
// ---------------------------------------------------------------------------

/// `Σ_{f < n, f pinned} eq_coeff(e, f) · fv[f]`.
pub open spec fn fixed_sum(e: int, isf: Seq<bool>, fv: Seq<u8>, n: int) -> int
    decreases n,
{
    if n <= 0 {
        0
    } else {
        fixed_sum(e, isf, fv, n - 1) + (if isf[n - 1] {
            eq_coeff(e, n - 1) * fv[n - 1]
        } else {
            0
        })
    }
}

/// Coefficient of unknown `f` in equation `e`: zero for pinned trits, so the
/// elimination treats exactly the free trits as unknowns.
pub open spec fn system_entry(e: int, f: int, isf: Seq<bool>) -> int {
    if isf[f] {
        0
    } else {
        eq_coeff(e, f)
    }
}

/// `Σ_{j<n} A[e][j] · y[j]` for the parity system with pins `isf`.
pub open spec fn system_dot(e: int, y: Seq<int>, isf: Seq<bool>, n: int) -> int
    decreases n,
{
    if n <= 0 {
        0
    } else {
        system_dot(e, y, isf, n - 1) + system_entry(e, n - 1, isf) * y[n - 1]
    }
}

/// Column `f` of the parity system with pins `isf` (equations `e < neq`) is
/// a combination over GF(3) of the columns before it.
pub open spec fn system_col_in_span(neq: int, isf: Seq<bool>, f: int) -> bool {
    exists|lam: Seq<int>|
        lam.len() == f && forall|e: int|
            0 <= e < neq ==> cong3(#[trigger] system_dot(e, lam, isf, f), system_entry(e, f, isf))
}

/// The codeword trits that are pinned (message block or constraint).
pub open spec fn pinned(
    payload: Seq<u8>,
    coords: Seq<(usize, usize)>,
    cs: Seq<ConstraintMask>,
    p: nat,
    o: nat,
    cw: nat,
) -> Seq<bool> {
    Seq::new(cw, |i: int| fixed_trit(payload, coords, cs, p, o, i) is Some)
}

/// A matrix whose entries are those of the parity system has its row dot
/// products.
proof fn lemma_system_dot(a: Gf3Matrix, isf: Seq<bool>, e: int, y: Seq<int>, n: int)
    requires
        0 <= n <= a.cols,
        forall|f: int| 0 <= f < a.cols ==> #[trigger] entry3(a.data@, e * a.cols, f) == system_entry(e, f, isf),
    ensures
        a.row_value(e, y, n) == system_dot(e, y, isf, n),
    decreases n,
{
    if n > 0 {
        lemma_system_dot(a, isf, e, y, n - 1);
        assert(entry3(a.data@, e * a.cols, n - 1) == system_entry(e, n - 1, isf));
    }
}

/// A parity sum splits into its pinned part and a dot product with the row
/// of the system.
proof fn lemma_parity_split(
    e: int,
    w: Seq<int>,
    x: Seq<int>,
    isf: Seq<bool>,
    fv: Seq<u8>,
    d: Seq<u8>,
    base: int,
    n: int,
)
    requires
        0 <= n,
        forall|f: int| 0 <= f < n ==> #[trigger] w[f] == (if isf[f] { fv[f] as int } else { x[f] }),
        forall|f: int| 0 <= f < n ==> #[trigger] entry3(d, base, f) == system_entry(e, f, isf),
    ensures
        parity_sum(e, w, n) == fixed_sum(e, isf, fv, n) + row_dot(d, base, x, 0, n),
    decreases n,
{
    if n > 0 {
        lemma_parity_split(e, w, x, isf, fv, d, base, n - 1);
        assert(w[n - 1] == (if isf[n - 1] { fv[n - 1] as int } else { x[n - 1] }));
        assert(entry3(d, base, n - 1) == system_entry(e, n - 1, isf));
    }
}

/// `rd ≡ -fs (mod 3)` makes `fs + rd` a multiple of 3, and conversely.
proof fn lemma_balance(fs: int, rd: int)
    ensures
        cong3(rd, (3 - fs % 3) % 3) <==> (fs + rd) % 3 == 0,
{
    vstd::arithmetic::div_mod::lemma_fundamental_div_mod(fs, 3);
    vstd::arithmetic::div_mod::lemma_fundamental_div_mod(rd, 3);
    vstd::arithmetic::div_mod::lemma_fundamental_div_mod(fs + rd, 3);
    let t = (3 - fs % 3) % 3;
    vstd::arithmetic::div_mod::lemma_fundamental_div_mod(rd - t, 3);
    let q = fs % 3;
    assert(t == 0 || t == 3 - q);
    assert(q + t == 0 || q + t == 3);
    assert((rd - t) % 3 == 0 <==> (fs + rd) % 3 == 0) by (nonlinear_arith)
        requires
            fs == 3 * (fs / 3) + q,
            rd == 3 * (rd / 3) + rd % 3,
            0 <= rd % 3 < 3,
            0 <= q < 3,
            q + t == 0 || q + t == 3,
            fs + rd == 3 * ((fs + rd) / 3) + (fs + rd) % 3,
            0 <= (fs + rd) % 3 < 3,
            rd - t == 3 * ((rd - t) / 3) + (rd - t) % 3,
            0 <= (rd - t) % 3 < 3,
    ;
}

/// Coefficients are trits.
proof fn lemma_eq_coeff_range(e: int, f: int)
    ensures
        0 <= eq_coeff(e, f) < 3,
{
}

/// The system `A·x = b` over the codeword trits: `A[e][f]` is the
/// coefficient of trit `f` in equation `e` for free trits and 0 for pinned
/// ones; `b[e]` cancels the contribution of the pinned trits.
fn build_parity_system(
    gf: &GF3,
    p: usize,
    ns: usize,
    is_fixed: &Vec<bool>,
    fixed_val: &Vec<u8>,
) -> (res: (Gf3Matrix, Vec<u8>))
    requires
        gf.wf(),
        2 <= p <= 728,
        is_fixed@.len() == 6 * ns,
        fixed_val@.len() == 6 * ns,
        6 * p * (6 * ns + 1) <= usize::MAX,
    ensures
        res.0.rows == 6 * p,
        res.0.cols == 6 * ns,
        res.0.wf(),
        forall|e: int, f: int|
            0 <= e < 6 * p && 0 <= f < 6 * ns ==> #[trigger] entry3(res.0.data@, e * (6 * ns), f)
                == system_entry(e, f, is_fixed@),
        res.1@.len() == 6 * p,
        forall|e: int|
            0 <= e < 6 * p ==> #[trigger] res.1@[e] as int == (3 - fixed_sum(e, is_fixed@, fixed_val@, 6 * ns)
                % 3) % 3,
{
    proof {
        assert(6 * ns <= 6 * p * (6 * ns + 1)) by (nonlinear_arith)
            requires
                2 <= p,
        ;
    }
    let cw = 6 * ns;
    let neq = 6 * p;
    proof {
        assert(neq * cw <= neq * (cw + 1)) by (nonlinear_arith)
            requires
                0 <= neq,
                0 <= cw,
        ;
    }
    let h = build_parity_check_matrix(gf, ns, p);
    let mut a = Gf3Matrix::zeros(neq, cw);
    let mut b: Vec<u8> = Vec::new();
    proof {
        assert forall|ee: int, ff: int| 0 <= ee < neq && 0 <= ff < cw implies #[trigger] a.data@[ee * cw + ff] == 0 by {
            crate::modular::lemma_index_bound(ee, ff, neq as int, cw as int);
        }
    }
    let mut i: usize = 0;
    while i < p
        invariant
            gf.wf(),
            p <= 728,
            cw == 6 * ns,
            neq == 6 * p,
            neq * cw <= usize::MAX,
            is_fixed@.len() == cw,
            fixed_val@.len() == cw,
            h@.len() == p,
            forall|ii: int| 0 <= ii < p ==> (#[trigger] h@[ii])@.len() == ns,
            forall|ii: int, j: int|
                0 <= ii < p && 0 <= j < ns ==> #[trigger] h@[ii]@[j] == check_entry(ii as nat, j as nat),
            0 <= i <= p,
            a.rows == neq,
            a.cols == cw,
            a.wf(),
            b@.len() == 6 * i,
            forall|ee: int|
                0 <= ee < 6 * i ==> #[trigger] b@[ee] as int == (3 - fixed_sum(ee, is_fixed@, fixed_val@, cw as int)
                    % 3) % 3,
            forall|ee: int, ff: int|
                0 <= ee < neq && 0 <= ff < cw ==> #[trigger] a.data@[ee * cw + ff] as int == (if ee < 6 * i {
                    system_entry(ee, ff, is_fixed@)
                } else {
                    0
                }),
        decreases p - i,
    {
        let mut ts: Vec<[[u64; 6]; 6]> = Vec::new();
        let mut j: usize = 0;
        while j < ns
            invariant
                gf.wf(),
                0 <= i < p,
                h@.len() == p,
                forall|ii: int| 0 <= ii < p ==> (#[trigger] h@[ii])@.len() == ns,
                forall|ii: int, jj: int|
                    0 <= ii < p && 0 <= jj < ns ==> #[trigger] h@[ii]@[jj] == check_entry(ii as nat, jj as nat),
                0 <= j <= ns,
                ts@.len() == j,
                forall|jj: int, r: int, c: int|
                    0 <= jj < j && 0 <= r < 6 && 0 <= c < 6 ==> #[trigger] ts@[jj][r][c] == transform_entry(
                        check_entry(i as nat, jj as nat),
                        r as nat,
                        c as nat,
                    ),
            decreases ns - j,
        {
            let t = compute_transform_matrix(gf, h[i][j]);
            ts.push(t);
            j = j + 1;
        }
        let mut r: usize = 0;
        while r < 6
            invariant
                gf.wf(),
                p <= 728,
                cw == 6 * ns,
                neq == 6 * p,
                neq * cw <= usize::MAX,
                is_fixed@.len() == cw,
                fixed_val@.len() == cw,
                0 <= i < p,
                0 <= r <= 6,
                ts@.len() == ns,
                forall|jj: int, rr: int, c: int|
                    0 <= jj < ns && 0 <= rr < 6 && 0 <= c < 6 ==> #[trigger] ts@[jj][rr][c] == transform_entry(
                        check_entry(i as nat, jj as nat),
                        rr as nat,
                        c as nat,
                    ),
                a.rows == neq,
                a.cols == cw,
                a.wf(),
                b@.len() == 6 * i + r,
                forall|ee: int|
                    0 <= ee < 6 * i + r ==> #[trigger] b@[ee] as int == (3 - fixed_sum(
                        ee,
                        is_fixed@,
                        fixed_val@,
                        cw as int,
                    ) % 3) % 3,
                forall|ee: int, ff: int|
                    0 <= ee < neq && 0 <= ff < cw ==> #[trigger] a.data@[ee * cw + ff] as int == (if ee < 6 * i
                        + r {
                        system_entry(ee, ff, is_fixed@)
                    } else {
                        0
                    }),
            decreases 6 - r,
        {
            let e = 6 * i + r;
            let mut fs: u32 = 0;
            let mut f: usize = 0;
            while f < cw
                invariant
                    p <= 728,
                    cw == 6 * ns,
                    neq == 6 * p,
                    neq * cw <= usize::MAX,
                    is_fixed@.len() == cw,
                    fixed_val@.len() == cw,
                    0 <= i < p,
                    0 <= r < 6,
                    e == 6 * i + r,
                    0 <= f <= cw,
                    ts@.len() == ns,
                    forall|jj: int, rr: int, c: int|
                        0 <= jj < ns && 0 <= rr < 6 && 0 <= c < 6 ==> #[trigger] ts@[jj][rr][c] == transform_entry(
                            check_entry(i as nat, jj as nat),
                            rr as nat,
                            c as nat,
                        ),
                    a.rows == neq,
                    a.cols == cw,
                    a.wf(),
                    fs < 3,
                    fs as int == fixed_sum(e as int, is_fixed@, fixed_val@, f as int) % 3,
                    forall|ee: int, ff: int|
                        0 <= ee < neq && 0 <= ff < cw ==> #[trigger] a.data@[ee * cw + ff] as int == (if ee < e
                            || (ee == e && ff < f) {
                            system_entry(ee, ff, is_fixed@)
                        } else {
                            0
                        }),
                decreases cw - f,
            {
                let coeff = ts[f / 6][r][f % 6];
                proof {
                    crate::modular::lemma_index_row_col(i as int, r as int, 6);
                    vstd::arithmetic::div_mod::lemma_fundamental_div_mod(f as int, 6);
                    assert(coeff as int == eq_coeff(e as int, f as int));
                    lemma_eq_coeff_range(e as int, f as int);
                    crate::modular::lemma_index_bound(e as int, f as int, neq as int, cw as int);
                }
                let ghost d0 = a.data@;
                if coeff != 0 {
                    if is_fixed[f] {
                        proof {
                            let x = fixed_sum(e as int, is_fixed@, fixed_val@, f as int);
                            let y = eq_coeff(e as int, f as int) * fixed_val@[f as int];
                            assert(fixed_sum(e as int, is_fixed@, fixed_val@, f + 1) == x + y);
                            vstd::arithmetic::div_mod::lemma_add_mod_noop(x, y, 3);
                            vstd::arithmetic::div_mod::lemma_add_mod_noop(x % 3, y, 3);
                            vstd::arithmetic::div_mod::lemma_mod_twice(x, 3);
                            assert((coeff as u32) * (fixed_val@[f as int] as u32) <= 2 * 255) by (nonlinear_arith)
                                requires
                                    coeff < 3,
                                    fixed_val@[f as int] <= 255,
                            ;
                        }
                        fs = (fs + (coeff as u32) * (fixed_val[f] as u32)) % 3;
                    } else {
                        a.set(e, f, coeff as u8);
                    }
                }
                proof {
                    if coeff == 0 || !is_fixed@[f as int] {
                        assert(eq_coeff(e as int, f as int) * fixed_val@[f as int] == 0 || !is_fixed@[f as int]) by (nonlinear_arith)
                            requires
                                coeff == 0 ==> eq_coeff(e as int, f as int) == 0,
                                coeff == 0 || !is_fixed@[f as int],
                        ;
                        assert(fixed_sum(e as int, is_fixed@, fixed_val@, f + 1) == fixed_sum(
                            e as int,
                            is_fixed@,
                            fixed_val@,
                            f as int,
                        ));
                    }
                    assert forall|ee: int, ff: int| 0 <= ee < neq && 0 <= ff < cw implies #[trigger] a.data@[ee
                        * cw + ff] as int == (if ee < e || (ee == e && ff < f + 1) {
                        system_entry(ee, ff, is_fixed@)
                    } else {
                        0
                    }) by {
                        crate::modular::lemma_index_row_col(ee, ff, cw as int);
                        crate::modular::lemma_index_row_col(e as int, f as int, cw as int);
                        crate::modular::lemma_index_bound(ee, ff, neq as int, cw as int);
                        if ee == e && ff == f {
                        } else {
                            assert(ee * cw + ff != e * cw + f);
                            assert(a.data@[ee * cw + ff] == d0[ee * cw + ff]);
                        }
                    }
                }
                f = f + 1;
            }
            proof {
                vstd::arithmetic::div_mod::lemma_mod_bound(fixed_sum(e as int, is_fixed@, fixed_val@, cw as int), 3);
            }
            b.push(((3 - fs) % 3) as u8);
            r = r + 1;
        }
        i = i + 1;
    }
    proof {
        assert forall|e: int, f: int| 0 <= e < 6 * p && 0 <= f < 6 * ns implies #[trigger] entry3(
            a.data@,
            e * (6 * ns),
            f,
        ) == system_entry(e, f, is_fixed@) by {
            lemma_eq_coeff_range(e, f);
            assert(a.data@[e * cw + f] as int == system_entry(e, f, is_fixed@));
        }
    }
    (a, b)
}

// ---------------------------------------------------------------------------
// Grid assembly
// ---------------------------------------------------------------------------

/// Every anchor block holds its pattern.
pub open spec fn anchors_placed(g: TriGrid) -> bool {
    forall|k: int, dr: int, dc: int|
        0 <= k < 4 && 0 <= dr < 5 && 0 <= dc < 8 ==> g.cell(
            corner_origin(k, g.rows as int, g.cols as int).0 + dc,
            corner_origin(k, g.rows as int, g.cols as int).1 + dr,
        ) == #[trigger] pattern_cell(k, dr, dc)
}

/// What a data cell after the codeword holds: its constraint's state, or
/// else its fill value.
pub open spec fn outer_value(coords: Seq<(usize, usize)>, cs: Seq<ConstraintMask>, fill: Seq<u8>, f: int) -> u8 {
    match cell_constraint(coords, cs, f) {
        Some(v) => v,
        None => fill[f],
    }
}

/// The data cells before the codeword hold the length prefix; those after
/// it hold their constraint's state where one names them, else the fill
/// value.
pub open spec fn cells_placed(
    g: TriGrid,
    coords: Seq<(usize, usize)>,
    cw: nat,
    cs: Seq<ConstraintMask>,
    fill: Seq<u8>,
) -> bool {
    &&& forall|f: int|
        0 <= f < coords.len() && f < 12 ==> #[trigger] g.cell(coords[f].0 as int, coords[f].1 as int)
            == spec_length_trits(cw)[f]
    &&& forall|f: int|
        12 + cw <= f < coords.len() ==> #[trigger] g.cell(coords[f].0 as int, coords[f].1 as int) == outer_value(
            coords,
            cs,
            fill,
            f,
        )
}

/// The codeword carried by `g` takes every pinned value, satisfies the parity
/// checks, and each free trit that is not a pivot of the elimination takes
/// its fill value modulo 3; in particular so does every free trit whose
/// column in the parity system is a combination of the columns before it.
pub open spec fn layout_ok(
    g: TriGrid,
    payload: Seq<u8>,
    coords: Seq<(usize, usize)>,
    cs: Seq<ConstraintMask>,
    fill: Seq<u8>,
    o: nat,
) -> bool {
    let ns = num_symbols_for(coords.len());
    let cw = 6 * ns;
    let p = spec_parity_count(ns);
    let w = codeword_of(g, coords, cw);
    &&& agrees_with_fixed(w, payload, coords, cs, p, o, cw)
    &&& parity_holds(w, p, cw)
    &&& forall|idx: int|
        0 <= idx < cw && #[trigger] fixed_trit(payload, coords, cs, p, o, idx) is None ==> 0 <= w[idx] < 3
    &&& exists|piv: Seq<int>|
        piv.len() <= 6 * p && forall|idx: int|
            0 <= idx < cw && #[trigger] fixed_trit(payload, coords, cs, p, o, idx) is None && !piv.contains(idx)
                ==> w[idx] == (fill[12 + idx] % 3) as int
    &&& forall|idx: int|
        0 <= idx < cw && fixed_trit(payload, coords, cs, p, o, idx) is None && #[trigger] system_col_in_span(
            (6 * p) as int,
            pinned(payload, coords, cs, p, o, cw),
            idx,
        ) ==> w[idx] == (fill[12 + idx] % 3) as int
}

/// The codeword layout cannot be completed: every offset is blocked, or no
/// codeword takes the pinned values and satisfies the parity checks.
pub open spec fn layout_unsatisfiable(
    payload: Seq<u8>,
    coords: Seq<(usize, usize)>,
    cs: Seq<ConstraintMask>,
) -> bool {
    let ns = num_symbols_for(coords.len());
    let cw = 6 * ns;
    let p = spec_parity_count(ns);
    let ms = msg_symbols_for(payload.len());
    ||| forall|o: nat| o <= max_offset_for(ns, p, ms) ==> #[trigger] offset_blocked(coords, cs, ns, p, ms, o)
    ||| exists|o: nat|
        #[trigger] first_free_offset(coords, cs, ns, p, ms, o) && forall|w: Seq<int>|
            w.len() == cw && #[trigger] agrees_with_fixed(w, payload, coords, cs, p, o, cw) ==> !parity_holds(
                w,
                p,
                cw,
            )
}

/// Different cells of a grid have different row-major indices.
proof fn lemma_cells_distinct(c1: int, r1: int, c2: int, r2: int, cols: int)
    requires
        0 <= c1 < cols,
        0 <= c2 < cols,
        c1 != c2 || r1 != r2,
    ensures
        r1 * cols + c1 != r2 * cols + c2,
{
    crate::modular::lemma_index_row_col(r1, c1, cols);
    crate::modular::lemma_index_row_col(r2, c2, cols);
}

/// Write the four anchor patterns; every other cell is left unchanged.
fn place_anchors(g: &mut TriGrid)
    requires
        old(g).wf(),
        old(g).rows >= 2 * TRI_ANCHOR_ROWS,
        old(g).cols >= 2 * TRI_ANCHOR_COLS,
    ensures
        final(g).rows == old(g).rows,
        final(g).cols == old(g).cols,
        final(g).wf(),
        anchors_placed(*final(g)),
        forall|col: int, row: int|
            0 <= col < old(g).cols && 0 <= row < old(g).rows && !in_anchor_region(
                col,
                row,
                old(g).rows as int,
                old(g).cols as int,
            ) ==> #[trigger] final(g).cell(col, row) == old(g).cell(col, row),
{
    let ghost g0 = *g;
    let rows = g.rows;
    let cols = g.cols;
    let corners = tri_corner_positions(rows, cols);
    let mut k: usize = 0;
    while k < 4
        invariant
            g.rows == rows,
            g.cols == cols,
            g.wf(),
            g0.rows == rows,
            g0.cols == cols,
            g0.wf(),
            rows >= 10,
            cols >= 16,
            0 <= k <= 4,
            forall|j: int|
                0 <= j < 4 ==> (#[trigger] corners[j]).0 == corner_origin(j, rows as int, cols as int).0
                    && corners[j].1 == corner_origin(j, rows as int, cols as int).1,
            forall|col: int, row: int|
                0 <= col < cols && 0 <= row < rows && !in_anchor_region(col, row, rows as int, cols as int)
                    ==> #[trigger] g.cell(col, row) == g0.cell(col, row),
            forall|kk: int, dr: int, dc: int|
                0 <= kk < k && 0 <= dr < 5 && 0 <= dc < 8 ==> g.cell(
                    corner_origin(kk, rows as int, cols as int).0 + dc,
                    corner_origin(kk, rows as int, cols as int).1 + dr,
                ) == #[trigger] pattern_cell(kk, dr, dc),
        decreases 4 - k,
    {
        let (ac, ar, _) = corners[k];
        let mut dr: usize = 0;
        while dr < TRI_ANCHOR_ROWS
            invariant
                g.rows == rows,
                g.cols == cols,
                g.wf(),
                g0.rows == rows,
                g0.cols == cols,
                g0.wf(),
                rows >= 10,
                cols >= 16,
                0 <= k < 4,
                ac == corner_origin(k as int, rows as int, cols as int).0,
                ar == corner_origin(k as int, rows as int, cols as int).1,
                0 <= dr <= 5,
                forall|col: int, row: int|
                    0 <= col < cols && 0 <= row < rows && !in_anchor_region(col, row, rows as int, cols as int)
                        ==> #[trigger] g.cell(col, row) == g0.cell(col, row),
                forall|kk: int, r: int, dc: int|
                    0 <= kk < k && 0 <= r < 5 && 0 <= dc < 8 ==> g.cell(
                        corner_origin(kk, rows as int, cols as int).0 + dc,
                        corner_origin(kk, rows as int, cols as int).1 + r,
                    ) == #[trigger] pattern_cell(kk, r, dc),
                forall|r: int, dc: int|
                    0 <= r < dr && 0 <= dc < 8 ==> g.cell(ac + dc, ar + r) == #[trigger] pattern_cell(
                        k as int,
                        r,
                        dc,
                    ),
            decreases 5 - dr,
        {
            let mut dc: usize = 0;
            while dc < TRI_ANCHOR_COLS
                invariant
                    g.rows == rows,
                    g.cols == cols,
                    g.wf(),
                    g0.rows == rows,
                    g0.cols == cols,
                    g0.wf(),
                    rows >= 10,
                    cols >= 16,
                    0 <= k < 4,
                    ac == corner_origin(k as int, rows as int, cols as int).0,
                    ar == corner_origin(k as int, rows as int, cols as int).1,
                    0 <= dr < 5,
                    0 <= dc <= 8,
                    forall|col: int, row: int|
                        0 <= col < cols && 0 <= row < rows && !in_anchor_region(col, row, rows as int, cols as int)
                            ==> #[trigger] g.cell(col, row) == g0.cell(col, row),
                    forall|kk: int, r: int, c: int|
                        0 <= kk < k && 0 <= r < 5 && 0 <= c < 8 ==> g.cell(
                            corner_origin(kk, rows as int, cols as int).0 + c,
                            corner_origin(kk, rows as int, cols as int).1 + r,
                        ) == #[trigger] pattern_cell(kk, r, c),
                    forall|r: int, c: int|
                        0 <= r < dr && 0 <= c < 8 ==> g.cell(ac + c, ar + r) == #[trigger] pattern_cell(
                            k as int,
                            r,
                            c,
                        ),
                    forall|c: int| 0 <= c < dc ==> g.cell(ac + c, ar + dr) == #[trigger] pattern_cell(
                        k as int,
                        dr as int,
                        c,
                    ),
                decreases 8 - dc,
            {
                let ghost gp = *g;
                let col = ac + dc;
                let row = ar + dr;
                proof {
                    assert(in_corner(k as int, col as int, row as int, rows as int, cols as int));
                }
                let v = TRI_ANCHOR_PATTERNS[k][dr][dc];
                g.set(col, row, v);
                proof {
                    crate::trigrid::lemma_cell_index(rows as int, cols as int, col as int, row as int);
                    assert forall|c2: int, r2: int|
                        0 <= c2 < cols && 0 <= r2 < rows && (c2 != col || r2 != row) implies #[trigger] g.cell(
                        c2,
                        r2,
                    ) == gp.cell(c2, r2) by {
                        lemma_cells_distinct(c2, r2, col as int, row as int, cols as int);
                        crate::trigrid::lemma_cell_index(rows as int, cols as int, c2, r2);
                    }
                    assert forall|c2: int, r2: int|
                        0 <= c2 < cols && 0 <= r2 < rows && !in_anchor_region(
                            c2,
                            r2,
                            rows as int,
                            cols as int,
                        ) implies #[trigger] g.cell(c2, r2) == g0.cell(c2, r2) by {
                        if c2 == col && r2 == row {
                            assert(in_corner(k as int, c2, r2, rows as int, cols as int));
                        }
                        assert(gp.cell(c2, r2) == g0.cell(c2, r2));
                    }
                    assert forall|kk: int, r: int, c: int|
                        0 <= kk < k && 0 <= r < 5 && 0 <= c < 8 implies g.cell(
                        corner_origin(kk, rows as int, cols as int).0 + c,
                        corner_origin(kk, rows as int, cols as int).1 + r,
                    ) == #[trigger] pattern_cell(kk, r, c) by {
                        let c2 = corner_origin(kk, rows as int, cols as int).0 + c;
                        let r2 = corner_origin(kk, rows as int, cols as int).1 + r;
                        assert(in_corner(kk, c2, r2, rows as int, cols as int));
                        assert(gp.cell(c2, r2) == pattern_cell(kk, r, c));
                    }
                    assert forall|r: int, c: int| 0 <= r < dr && 0 <= c < 8 implies g.cell(ac + c, ar + r)
                        == #[trigger] pattern_cell(k as int, r, c) by {
                        assert(gp.cell(ac + c, ar + r) == pattern_cell(k as int, r, c));
                    }
                    assert forall|c: int| 0 <= c < dc + 1 implies g.cell(ac + c, ar + dr) == #[trigger] pattern_cell(
                        k as int,
                        dr as int,
                        c,
                    ) by {
                        if c < dc {
                            assert(gp.cell(ac + c, ar + dr) == pattern_cell(k as int, dr as int, c));
                        } else {
                            crate::trigrid::lemma_cell_index(rows as int, cols as int, col as int, row as int);
                        }
                    }
                }
                dc = dc + 1;
            }
            dr = dr + 1;
        }
        k = k + 1;
    }
}

// ---------------------------------------------------------------------------
// Choosing the message offset
// ---------------------------------------------------------------------------

/// Some constrained cell among the first `limit` data cells lies in the
/// length prefix or in codeword trits `start .. end`.
pub open spec fn hits(cstate: Seq<Option<u8>>, limit: int, start: int, end: int) -> bool {
    exists|f: int| 0 <= f < limit && #[trigger] cstate[f] is Some && (f < 12 || (start <= f - 12 < end))
}

/// Whether a constrained cell collides with the prefix or the block `start .. end`.
fn block_hit(cstate: &Vec<Option<u8>>, limit: usize, start: usize, end: usize) -> (r: bool)
    requires
        limit <= cstate@.len(),
    ensures
        r == hits(cstate@, limit as int, start as int, end as int),
{
    let mut f: usize = 0;
    while f < limit
        invariant
            0 <= f <= limit,
            limit <= cstate@.len(),
            forall|f2: int| 0 <= f2 < f ==> !(#[trigger] cstate@[f2] is Some && (f2 < 12 || (start <= f2 - 12 < end))),
        decreases limit - f,
    {
        if cstate[f].is_some() && (f < 12 || (f - 12 >= start && f - 12 < end)) {
            return true;
        }
        f = f + 1;
    }
    false
}

/// The first offset in `0 ..= max_off` whose message block is not hit.
fn first_offset(cstate: &Vec<Option<u8>>, limit: usize, p: usize, ms: usize, max_off: usize) -> (r: Option<usize>)
    requires
        limit <= cstate@.len(),
        6 * (p + max_off) + 6 * ms <= usize::MAX,
    ensures
        match r {
            Some(o) => {
                &&& o <= max_off
                &&& !hits(cstate@, limit as int, 6 * (p + o), 6 * (p + o) + 6 * ms)
                &&& forall|o2: int| 0 <= o2 < o ==> #[trigger] hits(cstate@, limit as int, 6 * (p + o2), 6 * (p + o2) + 6 * ms)
            },
            None => forall|o2: int|
                0 <= o2 <= max_off ==> #[trigger] hits(cstate@, limit as int, 6 * (p + o2), 6 * (p + o2) + 6 * ms),
        },
{
    let mut o: usize = 0;
    while o <= max_off
        invariant
            limit <= cstate@.len(),
            6 * (p + max_off) + 6 * ms <= usize::MAX,
            0 <= o <= max_off + 1,
            forall|o2: int| 0 <= o2 < o ==> #[trigger] hits(cstate@, limit as int, 6 * (p + o2), 6 * (p + o2) + 6 * ms),
        decreases max_off + 1 - o,
    {
        let start = 6 * (p + o);
        if !block_hit(cstate, limit, start, start + 6 * ms) {
            return Some(o);
        }
        if o == max_off {
            return None;
        }
        o = o + 1;
    }
    None
}

/// The scan over the constraint states decides whether an offset is blocked.
proof fn lemma_hits_blocked(
    cstate: Seq<Option<u8>>,
    coords: Seq<(usize, usize)>,
    cs: Seq<ConstraintMask>,
    ns: nat,
    p: nat,
    ms: nat,
    o: nat,
    limit: int,
)
    requires
        cstate.len() == coords.len(),
        forall|f: int| 0 <= f < coords.len() ==> #[trigger] cstate[f] == cell_constraint(coords, cs, f),
        limit == (if coords.len() < 12 + 6 * ns { coords.len() as int } else { (12 + 6 * ns) as int }),
    ensures
        hits(cstate, limit, (6 * (p + o)) as int, (6 * (p + o) + 6 * ms) as int) == offset_blocked(coords, cs, ns, p, ms, o),
{
    if hits(cstate, limit, (6 * (p + o)) as int, (6 * (p + o) + 6 * ms) as int) {
        let f = choose|f: int| 0 <= f < limit && #[trigger] cstate[f] is Some && (f < 12 || (6 * (p + o) <= f - 12 < 6 * (p + o) + 6 * ms));
        assert(cell_constraint(coords, cs, f) is Some);
    }
    if offset_blocked(coords, cs, ns, p, ms, o) {
        let f = choose|f: int|
            0 <= f < coords.len() && f < 12 + 6 * ns && #[trigger] cell_constraint(coords, cs, f) is Some && (f < 12
                || in_message(f - 12, p, o, ms));
        assert(cstate[f] is Some);
    }
}

// ---------------------------------------------------------------------------
// The layout
// ---------------------------------------------------------------------------

/// Pinned codeword trits: the message block `m` at `start .. end`, then the
/// constrained cells.
fn pin_trits(cstate: &Vec<Option<u8>>, m: &Vec<u8>, cw: usize, start: usize, end: usize) -> (res: (
    Vec<bool>,
    Vec<u8>,
))
    requires
        12 + cw <= cstate@.len() || cw == 0,
        cstate@.len() <= usize::MAX,
        start <= end,
        end - start == m@.len(),
    ensures
        res.0@.len() == cw,
        res.1@.len() == cw,
        forall|i: int|
            0 <= i < cw ==> (#[trigger] res.0@[i] <==> (start <= i < end || cstate@[12 + i] is Some)),
        forall|i: int| 0 <= i < cw && start <= i < end ==> #[trigger] res.1@[i] == m@[i - start],
        forall|i: int|
            0 <= i < cw && !(start <= i < end) && cstate@[12 + i] is Some ==> #[trigger] res.1@[i]
                == cstate@[12 + i]->0,
{
    let mut is_fixed: Vec<bool> = Vec::new();
    let mut fixed_val: Vec<u8> = Vec::new();
    let mut idx: usize = 0;
    while idx < cw
        invariant
            12 + cw <= cstate@.len() || cw == 0,
            cstate@.len() <= usize::MAX,
            start <= end,
            end - start == m@.len(),
            0 <= idx <= cw,
            is_fixed@.len() == idx,
            fixed_val@.len() == idx,
            forall|i: int|
                0 <= i < idx ==> (#[trigger] is_fixed@[i] <==> (start <= i < end || cstate@[12 + i] is Some)),
            forall|i: int| 0 <= i < idx && start <= i < end ==> #[trigger] fixed_val@[i] == m@[i - start],
            forall|i: int|
                0 <= i < idx && !(start <= i < end) && cstate@[12 + i] is Some ==> #[trigger] fixed_val@[i]
                    == cstate@[12 + i]->0,
        decreases cw - idx,
    {
        if idx >= start && idx < end {
            is_fixed.push(true);
            fixed_val.push(m[idx - start]);
        } else {
            match cstate[12 + idx] {
                Some(v) => {
                    is_fixed.push(true);
                    fixed_val.push(v);
                },
                None => {
                    is_fixed.push(false);
                    fixed_val.push(0);
                },
            }
        }
        idx = idx + 1;
    }
    (is_fixed, fixed_val)
}

/// Write `vals[f]` into the data cell `coords[f]` for every `f`.
fn write_cells(g: &mut TriGrid, coords: &Vec<(usize, usize)>, vals: &Vec<u8>)
    requires
        old(g).wf(),
        vals@.len() == coords@.len(),
        forall|i: int|
            0 <= i < coords@.len() ==> (#[trigger] coords@[i]).0 < old(g).cols && coords@[i].1 < old(g).rows,
        forall|i: int, j: int|
            0 <= i < j < coords@.len() ==> row_major(#[trigger] coords@[i], old(g).cols as int) < row_major(
                #[trigger] coords@[j],
                old(g).cols as int,
            ),
    ensures
        final(g).rows == old(g).rows,
        final(g).cols == old(g).cols,
        final(g).wf(),
        forall|f: int|
            0 <= f < coords@.len() ==> #[trigger] final(g).cell(coords@[f].0 as int, coords@[f].1 as int)
                == vals@[f],
{
    let rows = g.rows;
    let cols = g.cols;
    let mut f: usize = 0;
    while f < coords.len()
        invariant
            g.rows == rows,
            g.cols == cols,
            g.wf(),
            vals@.len() == coords@.len(),
            forall|i: int| 0 <= i < coords@.len() ==> (#[trigger] coords@[i]).0 < cols && coords@[i].1 < rows,
            forall|i: int, j: int|
                0 <= i < j < coords@.len() ==> row_major(#[trigger] coords@[i], cols as int) < row_major(
                    #[trigger] coords@[j],
                    cols as int,
                ),
            0 <= f <= coords@.len(),
            forall|f2: int|
                0 <= f2 < f ==> #[trigger] g.cell(coords@[f2].0 as int, coords@[f2].1 as int) == vals@[f2],
        decreases coords@.len() - f,
    {
        let ghost gprev = *g;
        let (c, r) = coords[f];
        g.set(c, r, vals[f]);
        proof {
            crate::trigrid::lemma_cell_index(rows as int, cols as int, c as int, r as int);
            assert forall|f2: int| 0 <= f2 < f + 1 implies #[trigger] g.cell(
                coords@[f2].0 as int,
                coords@[f2].1 as int,
            ) == vals@[f2] by {
                if f2 < f {
                    assert(row_major(coords@[f2], cols as int) < row_major(coords@[f as int], cols as int));
                    crate::trigrid::lemma_cell_index(
                        rows as int,
                        cols as int,
                        coords@[f2].0 as int,
                        coords@[f2].1 as int,
                    );
                    assert(gprev.cell(coords@[f2].0 as int, coords@[f2].1 as int) == vals@[f2]);
                }
            }
        }
        f = f + 1;
    }
}

/// The values of the data cells: length prefix, codeword, fill.
fn data_cell_values(lp: &[u8; 12], full: &Vec<u8>, fill: &[u8]) -> (vals: Vec<u8>)
    requires
        12 + full@.len() <= fill@.len() || full@.len() == 0,
    ensures
        vals@.len() == fill@.len(),
        forall|f: int|
            0 <= f < fill@.len() ==> #[trigger] vals@[f] == (if f < 12 {
                lp@[f]
            } else if f < 12 + full@.len() {
                full@[f - 12]
            } else {
                fill@[f]
            }),
{
    let n = fill.len();
    let cw = full.len();
    let mut vals: Vec<u8> = Vec::new();
    let mut f: usize = 0;
    while f < n
        invariant
            n == fill@.len(),
            cw == full@.len(),
            12 + cw <= n || cw == 0,
            0 <= f <= n,
            vals@.len() == f,
            forall|f2: int|
                0 <= f2 < f ==> #[trigger] vals@[f2] == (if f2 < 12 {
                    lp@[f2]
                } else if f2 < 12 + cw {
                    full@[f2 - 12]
                } else {
                    fill@[f2]
                }),
        decreases n - f,
    {
        let v = if f < 12 {
            lp[f]
        } else if f < 12 + cw {
            full[f - 12]
        } else {
            fill[f]
        };
        vals.push(v);
        f = f + 1;
    }
    vals
}

/// The full codeword: pinned values, and the solution elsewhere.
fn merge_codeword(is_fixed: &Vec<bool>, fixed_val: &Vec<u8>, x: &Vec<u8>) -> (full: Vec<u8>)
    requires
        fixed_val@.len() == is_fixed@.len(),
        x@.len() == is_fixed@.len(),
    ensures
        full@.len() == is_fixed@.len(),
        forall|i: int|
            0 <= i < is_fixed@.len() ==> #[trigger] full@[i] == (if is_fixed@[i] {
                fixed_val@[i]
            } else {
                x@[i]
            }),
{
    let mut full: Vec<u8> = Vec::new();
    let mut idx: usize = 0;
    while idx < is_fixed.len()
        invariant
            fixed_val@.len() == is_fixed@.len(),
            x@.len() == is_fixed@.len(),
            0 <= idx <= is_fixed@.len(),
            full@.len() == idx,
            forall|i: int|
                0 <= i < idx ==> #[trigger] full@[i] == (if is_fixed@[i] { fixed_val@[i] } else { x@[i] }),
        decreases is_fixed@.len() - idx,
    {
        if is_fixed[idx] {
            full.push(fixed_val[idx]);
        } else {
            full.push(x[idx]);
        }
        idx = idx + 1;
    }
    full
}

/// Target values for the unknowns: the fill value (mod 3) of each free trit.
fn free_targets(is_fixed: &Vec<bool>, fill: &[u8]) -> (t: Vec<u8>)
    requires
        12 + is_fixed@.len() <= fill@.len() || is_fixed@.len() == 0,
        fill@.len() <= usize::MAX,
    ensures
        t@.len() == is_fixed@.len(),
        forall|i: int| 0 <= i < is_fixed@.len() && !is_fixed@[i] ==> #[trigger] t@[i] == fill@[12 + i] % 3,
{
    let mut targets: Vec<u8> = Vec::new();
    let mut idx: usize = 0;
    while idx < is_fixed.len()
        invariant
            12 + is_fixed@.len() <= fill@.len() || is_fixed@.len() == 0,
            fill@.len() <= usize::MAX,
            0 <= idx <= is_fixed@.len(),
            targets@.len() == idx,
            forall|i: int| 0 <= i < idx && !is_fixed@[i] ==> #[trigger] targets@[i] == fill@[12 + i] % 3,
        decreases is_fixed@.len() - idx,
    {
        if is_fixed[idx] {
            targets.push(0);
        } else {
            targets.push(fill[12 + idx] % 3);
        }
        idx = idx + 1;
    }
    targets
}

/// A codeword that takes the pinned values and satisfies the parity checks
/// solves the system.
proof fn lemma_codeword_solves(a: Gf3Matrix, b: Seq<u8>, isf: Seq<bool>, fv: Seq<u8>, w: Seq<int>, x: Seq<int>, p: nat, cw: nat)
    requires
        a.rows == 6 * p,
        a.cols == cw,
        isf.len() == cw,
        fv.len() == cw,
        w.len() == cw,
        x.len() == cw,
        forall|e: int, f: int|
            0 <= e < 6 * p && 0 <= f < cw ==> #[trigger] entry3(a.data@, e * cw, f) == system_entry(e, f, isf),
        b.len() == 6 * p,
        forall|e: int| 0 <= e < 6 * p ==> #[trigger] b[e] as int == (3 - fixed_sum(e, isf, fv, cw as int) % 3) % 3,
        forall|f: int| 0 <= f < cw ==> #[trigger] w[f] == (if isf[f] { fv[f] as int } else { x[f] }),
    ensures
        parity_holds(w, p, cw) <==> a.solved_by(b, x),
{
    assert forall|e: int| 0 <= e < 6 * p implies (#[trigger] parity_sum(e, w, cw as int) % 3 == 0 <==> cong3(
        a.row_value(e, x, a.cols as int),
        b[e] as int,
    )) by {
        assert forall|f: int| 0 <= f < cw implies #[trigger] entry3(a.data@, e * cw, f) == system_entry(e, f, isf) by {}
        lemma_parity_split(e, w, x, isf, fv, a.data@, e * cw, cw as int);
        lemma_balance(fixed_sum(e, isf, fv, cw as int), row_dot(a.data@, e * cw, x, 0, cw as int));
    }
    if parity_holds(w, p, cw) {
        assert forall|e: int| 0 <= e < a.rows implies cong3(#[trigger] a.row_value(e, x, a.cols as int), b[e] as int) by {
            assert(parity_sum(e, w, cw as int) % 3 == 0);
        }
    }
    if a.solved_by(b, x) {
        assert forall|e: int| 0 <= e < 6 * p implies #[trigger] parity_sum(e, w, cw as int) % 3 == 0 by {
            assert(cong3(a.row_value(e, x, a.cols as int), b[e] as int));
        }
    }
}

/// The values of the data cells after the codeword: the constraint's state
/// where one names the cell, else the fill value.
fn outer_values(cstate: &Vec<Option<u8>>, fill: &[u8]) -> (outer: Vec<u8>)
    requires
        cstate@.len() == fill@.len(),
    ensures
        outer@.len() == fill@.len(),
        forall|f: int|
            0 <= f < fill@.len() ==> #[trigger] outer@[f] == (match cstate@[f] {
                Some(v) => v,
                None => fill@[f],
            }),
{
    let mut outer: Vec<u8> = Vec::new();
    let mut f: usize = 0;
    while f < fill.len()
        invariant
            cstate@.len() == fill@.len(),
            0 <= f <= fill@.len(),
            outer@.len() == f,
            forall|f2: int|
                0 <= f2 < f ==> #[trigger] outer@[f2] == (match cstate@[f2] {
                    Some(v) => v,
                    None => fill@[f2],
                }),
        decreases fill@.len() - f,
    {
        let v = match cstate[f] {
            Some(v) => v,
            None => fill[f],
        };
        outer.push(v);
        f = f + 1;
    }
    outer
}

/// The constraint state of every data cell.
fn constraint_states(constraints: &[ConstraintMask], coords: &Vec<(usize, usize)>) -> (cstate: Vec<Option<u8>>)
    ensures
        cstate@.len() == coords@.len(),
        forall|f: int| 0 <= f < coords@.len() ==> #[trigger] cstate@[f] == cell_constraint(coords@, constraints@, f),
{
    let mut cstate: Vec<Option<u8>> = Vec::new();
    let mut f: usize = 0;
    while f < coords.len()
        invariant
            0 <= f <= coords@.len(),
            cstate@.len() == f,
            forall|f2: int| 0 <= f2 < f ==> #[trigger] cstate@[f2] == cell_constraint(coords@, constraints@, f2),
        decreases coords@.len() - f,
    {
        let cell = coords[f];
        let st = find_constraint(constraints, cell.0, cell.1);
        cstate.push(st);
        f = f + 1;
    }
    cstate
}

/// Lay out the payload on a grid whose data cells are `coords`; the cells
/// after the codeword take `fill`, and free codeword trits are guided by
/// `fill` as well.
#[verifier::spinoff_prover]
#[verifier::rlimit(50)]
fn layout_trigrid(
    payload: &[u8],
    rows: usize,
    cols: usize,
    constraints: &[ConstraintMask],
    coords: &Vec<(usize, usize)>,
    fill: &[u8],
) -> (res: Result<TriGrid, SolverError>)
    requires
        rows >= 2 * TRI_ANCHOR_ROWS,
        cols >= 2 * TRI_ANCHOR_COLS,
        4368 * (rows * cols + 1) <= usize::MAX,
        payload@.len() <= usize::MAX / 2,
        coords@ == spec_flat_coords(rows, cols),
        coords@.len() <= rows * cols,
        forall|i: int|
            0 <= i < coords@.len() ==> (#[trigger] coords@[i]).0 < cols && coords@[i].1 < rows
                && !in_anchor_region(coords@[i].0 as int, coords@[i].1 as int, rows as int, cols as int),
        forall|i: int, j: int|
            0 <= i < j < coords@.len() ==> row_major(#[trigger] coords@[i], cols as int) < row_major(
                #[trigger] coords@[j],
                cols as int,
            ),
        fill@.len() == coords@.len(),
        message_fits(payload@.len(), coords@.len()),
    ensures
        match res {
            Ok(g) => {
                &&& g.rows == rows
                &&& g.cols == cols
                &&& g.wf()
                &&& anchors_placed(g)
                &&& message_fits(payload@.len(), coords@.len())
                &&& cells_placed(g, coords@, 6 * num_symbols_for(coords@.len()), constraints@, fill@)
                &&& exists|o: nat|
                    #[trigger] first_free_offset(
                        coords@,
                        constraints@,
                        num_symbols_for(coords@.len()),
                        spec_parity_count(num_symbols_for(coords@.len())),
                        msg_symbols_for(payload@.len()),
                        o,
                    ) && layout_ok(g, payload@, coords@, constraints@, fill@, o)
            },
            Err(e) => e == SolverError::Unsatisfiable && layout_unsatisfiable(payload@, coords@, constraints@),
        },
{
    let ghost cs = constraints@;
    let n = coords.len();
    let ns: usize = if n >= 12 { (n - 12) / 6 } else { 0 };
    let cw = 6 * ns;
    let len = payload.len();
    let ms = 3 + (len + 5) / 6;
    let p = parity_symbol_count(ns);
    let max_off: usize = if ns >= p + ms { ns - p - ms } else { 0 };
    let ghost gns = num_symbols_for(n as nat);
    let ghost gp = p as nat;
    let ghost gms = msg_symbols_for(len as nat);
    proof {
        assert(ns as nat == gns);
        assert(12 + cw <= n || cw == 0);
        assert(ms as nat == gms);
        assert(max_off as nat == max_offset_for(gns, gp, gms));
    }
    let cstate = constraint_states(constraints, coords);
    let limit = if n < 12 + cw { n } else { 12 + cw };
    let found = first_offset(&cstate, limit, p, ms, max_off);
    let o = match found {
        Some(o) => o,
        None => {
            proof {
                assert forall|o2: nat| o2 <= max_offset_for(gns, gp, gms) implies #[trigger] offset_blocked(
                    coords@,
                    cs,
                    gns,
                    gp,
                    gms,
                    o2,
                ) by {
                    lemma_hits_blocked(cstate@, coords@, cs, gns, gp, gms, o2, limit as int);
                    assert(hits(cstate@, limit as int, 6 * (p + o2), 6 * (p + o2) + 6 * ms));
                }
            }
            return Err(SolverError::Unsatisfiable);
        },
    };
    proof {
        lemma_hits_blocked(cstate@, coords@, cs, gns, gp, gms, o as nat, limit as int);
        assert forall|o2: nat| o2 < o implies #[trigger] offset_blocked(coords@, cs, gns, gp, gms, o2) by {
            lemma_hits_blocked(cstate@, coords@, cs, gns, gp, gms, o2, limit as int);
            assert(hits(cstate@, limit as int, 6 * (p + o2), 6 * (p + o2) + 6 * ms));
        }
        assert(first_free_offset(coords@, cs, gns, gp, gms, o as nat));
    }
    let m = message_trits(payload, p);
    let start = 6 * (p + o);
    let end = start + 6 * ms;
    let (is_fixed, fixed_val) = pin_trits(&cstate, &m, cw, start, end);
    proof {
        assert forall|i: int| 0 <= i < cw implies (#[trigger] is_fixed@[i] <==> fixed_trit(
            payload@,
            coords@,
            cs,
            gp,
            o as nat,
            i,
        ) is Some) && (is_fixed@[i] ==> fixed_val@[i] == fixed_trit(payload@, coords@, cs, gp, o as nat, i)->0) by {
            assert(cstate@[12 + i] == cell_constraint(coords@, cs, 12 + i));
            if start <= i < end {
                assert(m@[i - start] == message_trit(payload@, p as nat, i - start));
            }
        }
    }
    let gf = GF3::new();
    proof {
        assert(6 * p * (6 * ns + 1) <= usize::MAX) by (nonlinear_arith)
            requires
                p <= 728,
                6 * ns <= rows * cols,
                4368 * (rows * cols + 1) <= usize::MAX,
        ;
    }
    let (a, b) = build_parity_system(&gf, p, ns, &is_fixed, &fixed_val);
    let targets = free_targets(&is_fixed, fill);
    proof {
        assert(a.rows * (a.cols + 1) <= usize::MAX) by (nonlinear_arith)
            requires
                a.rows == 6 * p,
                a.cols == 6 * ns,
                6 * p * (6 * ns + 1) <= usize::MAX,
        ;
    }
    let sol = solve_gf3_with_targets(&a, &b, &targets);
    let x = match sol {
        Some(x) => x,
        None => {
            proof {
                assert forall|w: Seq<int>|
                    w.len() == cw && #[trigger] agrees_with_fixed(w, payload@, coords@, cs, gp, o as nat, cw as nat)
                        implies !parity_holds(w, gp, cw as nat) by {
                    assert forall|ff: int| 0 <= ff < cw implies #[trigger] w[ff] == (if is_fixed@[ff] {
                        fixed_val@[ff] as int
                    } else {
                        w[ff]
                    }) by {
                        if is_fixed@[ff] {
                            assert(fixed_trit(payload@, coords@, cs, gp, o as nat, ff) is Some);
                        }
                    }
                    lemma_codeword_solves(a, b@, is_fixed@, fixed_val@, w, w, gp, cw as nat);
                }
            }
            return Err(SolverError::Unsatisfiable);
        },
    };
    let full = merge_codeword(&is_fixed, &fixed_val, &x);
    let lp = encode_length(cw);
    let outer = outer_values(&cstate, fill);
    let vals = data_cell_values(&lp, &full, &outer);
    let mut g = TriGrid::zeros(rows, cols);
    write_cells(&mut g, coords, &vals);
    let ghost gdata = g;
    place_anchors(&mut g);
    proof {
        assert forall|f2: int| 0 <= f2 < n implies #[trigger] g.cell(coords@[f2].0 as int, coords@[f2].1 as int)
            == vals@[f2] by {
            assert(gdata.cell(coords@[f2].0 as int, coords@[f2].1 as int) == vals@[f2]);
        }
        let w = codeword_of(g, coords@, cw as nat);
        assert forall|i2: int| 0 <= i2 < cw implies #[trigger] w[i2] == full@[i2] as int by {
            assert(g.cell(coords@[12 + i2].0 as int, coords@[12 + i2].1 as int) == vals@[12 + i2]);
        }
        let xi = to_ints(x@);
        assert forall|ff: int| 0 <= ff < cw implies #[trigger] w[ff] == (if is_fixed@[ff] {
            fixed_val@[ff] as int
        } else {
            xi[ff]
        }) by {}
        lemma_codeword_solves(a, b@, is_fixed@, fixed_val@, w, xi, gp, cw as nat);
        assert forall|i2: int|
            0 <= i2 < cw && #[trigger] fixed_trit(payload@, coords@, cs, gp, o as nat, i2) is Some implies w[i2]
                == fixed_trit(payload@, coords@, cs, gp, o as nat, i2)->0 as int by {
            assert(is_fixed@[i2]);
        }
        assert forall|i2: int|
            0 <= i2 < cw && #[trigger] fixed_trit(payload@, coords@, cs, gp, o as nat, i2) is None implies 0 <= w[i2]
                < 3 by {
            assert(!is_fixed@[i2]);
            assert(x@[i2] < 3);
        }
        let piv = choose|piv: Seq<int>|
            {
                &&& piv.len() <= a.rows
                &&& forall|k: int| 0 <= k < piv.len() ==> 0 <= #[trigger] piv[k] < a.cols && !a.col_is_zero(piv[k])
                &&& forall|c: int| 0 <= c < a.cols && !piv.contains(c) ==> #[trigger] x@[c] == targets@[c] % 3
            };
        assert forall|i2: int|
            0 <= i2 < cw && #[trigger] fixed_trit(payload@, coords@, cs, gp, o as nat, i2) is None && !piv.contains(i2)
                implies w[i2] == (fill@[12 + i2] % 3) as int by {
            assert(!is_fixed@[i2]);
            assert(x@[i2] == targets@[i2] % 3);
        }
        let pins = pinned(payload@, coords@, cs, gp, o as nat, cw as nat);
        assert(is_fixed@ =~= pins);
        assert forall|i2: int|
            0 <= i2 < cw && fixed_trit(payload@, coords@, cs, gp, o as nat, i2) is None && #[trigger] system_col_in_span(
                (6 * gp) as int,
                pins,
                i2,
            ) implies w[i2] == (fill@[12 + i2] % 3) as int by {
            let lam = choose|lam: Seq<int>|
                lam.len() == i2 && forall|e: int|
                    0 <= e < 6 * gp ==> cong3(#[trigger] system_dot(e, lam, pins, i2), system_entry(e, i2, pins));
            assert forall|e: int| 0 <= e < a.rows implies cong3(#[trigger] a.row_value(e, lam, i2), a.entry(e, i2)) by {
                assert forall|f: int| 0 <= f < a.cols implies #[trigger] entry3(a.data@, e * a.cols, f) == system_entry(
                    e,
                    f,
                    pins,
                ) by {
                    assert(entry3(a.data@, e * (6 * ns), f) == system_entry(e, f, is_fixed@));
                }
                lemma_system_dot(a, pins, e, lam, i2);
                assert(cong3(system_dot(e, lam, pins, i2), system_entry(e, i2, pins)));
                assert(entry3(a.data@, e * a.cols, i2) == system_entry(e, i2, pins));
            }
            assert(in_span_before(a, i2));
            assert(!is_fixed@[i2]);
            assert(x@[i2] == targets@[i2] % 3);
        }
        assert(layout_ok(g, payload@, coords@, cs, fill@, o as nat));
        assert forall|f2: int| 12 + cw <= f2 < coords@.len() implies #[trigger] g.cell(
            coords@[f2].0 as int,
            coords@[f2].1 as int,
        ) == outer_value(coords@, cs, fill@, f2) by {
            assert(vals@[f2] == outer@[f2]);
            assert(cstate@[f2] == cell_constraint(coords@, cs, f2));
        }
        assert forall|f2: int| 0 <= f2 < coords@.len() && f2 < 12 implies #[trigger] g.cell(
            coords@[f2].0 as int,
            coords@[f2].1 as int,
        ) == spec_length_trits(cw as nat)[f2] by {
            assert(vals@[f2] == lp@[f2]);
        }
    }
    Ok(g)
}

// ---------------------------------------------------------------------------
// The solver
// ---------------------------------------------------------------------------

/// Constraint `k` is the first one inside an anchor block.
pub open spec fn first_anchor_conflict(cs: Seq<ConstraintMask>, rows: usize, cols: usize, k: int) -> bool {
    &&& 0 <= k < cs.len()
    &&& in_anchor_region(cs[k].x as int, cs[k].y as int, rows as int, cols as int)
    &&& forall|j: int| 0 <= j < k ==> !in_anchor_region(#[trigger] cs[j].x as int, cs[j].y as int, rows as int, cols as int)
}

/// No constraint lies inside an anchor block.
pub open spec fn no_anchor_conflict(cs: Seq<ConstraintMask>, rows: usize, cols: usize) -> bool {
    forall|j: int| 0 <= j < cs.len() ==> !in_anchor_region(#[trigger] cs[j].x as int, cs[j].y as int, rows as int, cols as int)
}

/// `res` is the layout of `payload` over the data cells of a `rows × cols`
/// grid with fill values `fill`.
pub open spec fn layout_result(
    res: Result<TriGrid, SolverError>,
    payload: Seq<u8>,
    rows: usize,
    cols: usize,
    cs: Seq<ConstraintMask>,
    fill: Seq<u8>,
) -> bool {
    let coords = spec_flat_coords(rows, cols);
    let ns = num_symbols_for(coords.len());
    match res {
        Ok(g) => {
            &&& g.rows == rows
            &&& g.cols == cols
            &&& g.wf()
            &&& anchors_placed(g)
            &&& message_fits(payload.len(), coords.len())
            &&& cells_placed(g, coords, 6 * ns, cs, fill)
            &&& exists|o: nat|
                #[trigger] first_free_offset(
                    coords,
                    cs,
                    ns,
                    spec_parity_count(ns),
                    msg_symbols_for(payload.len()),
                    o,
                ) && layout_ok(g, payload, coords, cs, fill, o)
        },
        Err(e) => e == SolverError::Unsatisfiable && layout_unsatisfiable(payload, coords, cs),
    }
}

/// The outcome of solving on a grid that is large enough: the first
/// constraint inside an anchor block is reported, otherwise the layout.
pub open spec fn solver_outcome(
    res: Result<TriGrid, SolverError>,
    payload: Seq<u8>,
    rows: usize,
    cols: usize,
    cs: Seq<ConstraintMask>,
    fill: Seq<u8>,
) -> bool {
    ||| exists|k: int|
        #[trigger] first_anchor_conflict(cs, rows, cols, k) && res == Err::<TriGrid, SolverError>(
            SolverError::Conflict { x: cs[k].x, y: cs[k].y },
        )
    ||| no_anchor_conflict(cs, rows, cols) && layout_result(res, payload, rows, cols, cs, fill)
}

/// Gaussian-elimination layout solver for triangular grids.
pub struct TriGaussSolver;

impl TriGaussSolver {
    /// The first constraint inside an anchor block, if any.
    fn anchor_conflict(constraints: &[ConstraintMask], rows: usize, cols: usize) -> (r: Option<usize>)
        requires
            rows >= TRI_ANCHOR_ROWS,
            cols >= TRI_ANCHOR_COLS,
        ensures
            match r {
                Some(k) => first_anchor_conflict(constraints@, rows, cols, k as int),
                None => no_anchor_conflict(constraints@, rows, cols),
            },
    {
        let mut k: usize = 0;
        while k < constraints.len()
            invariant
                rows >= TRI_ANCHOR_ROWS,
                cols >= TRI_ANCHOR_COLS,
                0 <= k <= constraints@.len(),
                forall|j: int|
                    0 <= j < k ==> !in_anchor_region(
                        #[trigger] constraints@[j].x as int,
                        constraints@[j].y as int,
                        rows as int,
                        cols as int,
                    ),
            decreases constraints@.len() - k,
        {
            if is_in_tri_anchor_region(constraints[k].x, constraints[k].y, rows, cols) {
                return Some(k);
            }
            k = k + 1;
        }
        None
    }

    /// Shared body: size and anchor checks, then the layout with the fill
    /// values `targets` when they cover every data cell, else all 2.
    fn resolve_with(
        payload_trits: &[u8],
        rows: usize,
        cols: usize,
        constraints: &[ConstraintMask],
        targets: &[u8],
        guided: bool,
    ) -> (r: Result<TriGrid, SolverError>)
        requires
            4368 * (rows * cols + 1) <= usize::MAX,
            payload_trits@.len() <= usize::MAX / 2,
            rows < 2 * TRI_ANCHOR_ROWS || cols < 2 * TRI_ANCHOR_COLS || !no_anchor_conflict(constraints@, rows, cols)
                || message_fits(payload_trits@.len(), spec_flat_coords(rows, cols).len()),
        ensures
            rows < 2 * TRI_ANCHOR_ROWS || cols < 2 * TRI_ANCHOR_COLS ==> r == Err::<TriGrid, SolverError>(
                SolverError::MatrixTooSmall {
                    size: if rows < cols { rows } else { cols },
                    trits: payload_trits@.len() as usize,
                },
            ),
            rows >= 2 * TRI_ANCHOR_ROWS && cols >= 2 * TRI_ANCHOR_COLS ==> solver_outcome(
                r,
                payload_trits@,
                rows,
                cols,
                constraints@,
                if guided && targets@.len() == spec_flat_coords(rows, cols).len() {
                    targets@
                } else {
                    Seq::new(spec_flat_coords(rows, cols).len(), |i: int| 2u8)
                },
            ),
    {
        if rows < 2 * TRI_ANCHOR_ROWS || cols < 2 * TRI_ANCHOR_COLS {
            return Err(
                SolverError::MatrixTooSmall { size: if rows < cols { rows } else { cols }, trits: payload_trits.len() },
            );
        }
        if let Some(k) = Self::anchor_conflict(constraints, rows, cols) {
            return Err(SolverError::Conflict { x: constraints[k].x, y: constraints[k].y });
        }
        let coords = tri_grid_to_flat_coords(rows, cols);
        if guided && targets.len() == coords.len() {
            layout_trigrid(payload_trits, rows, cols, constraints, &coords, targets)
        } else {
            let fill = vec![2u8; coords.len()];
            proof {
                assert(fill@ =~= Seq::new(spec_flat_coords(rows, cols).len(), |i: int| 2u8));
            }
            layout_trigrid(payload_trits, rows, cols, constraints, &coords, fill.as_slice())
        }
    }

    /// Resolve a triangular grid that encodes the given payload.
    ///
    /// The grid needs at least 10 rows and 16 columns; a constraint inside an
    /// anchor block is a conflict. Otherwise the data cells carry the length
    /// prefix and a Reed-Solomon codeword whose message block sits at the
    /// first offset clear of the constraints; constrained cells keep their
    /// state, free trits that are not pivots of the elimination are 2, and
    /// every unconstrained cell after the codeword is 2. The parity symbols
    /// and the message block must fit in the codeword (`message_fits`): the
    /// grid then encodes the whole payload.
    pub fn resolve_trigrid(
        payload_trits: &[u8],
        rows: usize,
        cols: usize,
        constraints: &[ConstraintMask],
    ) -> (r: Result<TriGrid, SolverError>)
        requires
            4368 * (rows * cols + 1) <= usize::MAX,
            payload_trits@.len() <= usize::MAX / 2,
            rows < 2 * TRI_ANCHOR_ROWS || cols < 2 * TRI_ANCHOR_COLS || !no_anchor_conflict(constraints@, rows, cols)
                || message_fits(payload_trits@.len(), spec_flat_coords(rows, cols).len()),
        ensures
            rows < 2 * TRI_ANCHOR_ROWS || cols < 2 * TRI_ANCHOR_COLS ==> r == Err::<TriGrid, SolverError>(
                SolverError::MatrixTooSmall {
                    size: if rows < cols { rows } else { cols },
                    trits: payload_trits@.len() as usize,
                },
            ),
            rows >= 2 * TRI_ANCHOR_ROWS && cols >= 2 * TRI_ANCHOR_COLS ==> solver_outcome(
                r,
                payload_trits@,
                rows,
                cols,
                constraints@,
                Seq::new(spec_flat_coords(rows, cols).len(), |i: int| 2u8),
            ),
    {
        let none: Vec<u8> = Vec::new();
        Self::resolve_with(payload_trits, rows, cols, constraints, none.as_slice(), false)
    }

    /// Image-guided variant: `target_trits` holds a trit for every data cell
    /// (row-major, as `tri_grid_to_flat_coords`). Free codeword trits that
    /// are not pivots take their target (mod 3), and the cells after the
    /// codeword take their target as is (or their constraint's state).
    /// With a target map of the wrong length this is `resolve_trigrid`.
    pub fn resolve_trigrid_image_guided(
        payload_trits: &[u8],
        rows: usize,
        cols: usize,
        constraints: &[ConstraintMask],
        target_trits: &[u8],
    ) -> (r: Result<TriGrid, SolverError>)
        requires
            4368 * (rows * cols + 1) <= usize::MAX,
            payload_trits@.len() <= usize::MAX / 2,
            rows < 2 * TRI_ANCHOR_ROWS || cols < 2 * TRI_ANCHOR_COLS || !no_anchor_conflict(constraints@, rows, cols)
                || message_fits(payload_trits@.len(), spec_flat_coords(rows, cols).len()),
        ensures
            rows < 2 * TRI_ANCHOR_ROWS || cols < 2 * TRI_ANCHOR_COLS ==> r == Err::<TriGrid, SolverError>(
                SolverError::MatrixTooSmall {
                    size: if rows < cols { rows } else { cols },
                    trits: payload_trits@.len() as usize,
                },
            ),
            rows >= 2 * TRI_ANCHOR_ROWS && cols >= 2 * TRI_ANCHOR_COLS ==> solver_outcome(
                r,
                payload_trits@,
                rows,
                cols,
                constraints@,
                if target_trits@.len() == spec_flat_coords(rows, cols).len() {
                    target_trits@
                } else {
                    Seq::new(spec_flat_coords(rows, cols).len(), |i: int| 2u8)
                },
            ),
    {
        Self::resolve_with(payload_trits, rows, cols, constraints, target_trits, true)
    }
}

/// At most one offset is the first free one.
proof fn lemma_first_free_unique(
    coords: Seq<(usize, usize)>,
    cs: Seq<ConstraintMask>,
    ns: nat,
    p: nat,
    ms: nat,
    o1: nat,
    o2: nat,
)
    requires
        first_free_offset(coords, cs, ns, p, ms, o1),
        first_free_offset(coords, cs, ns, p, ms, o2),
    ensures
        o1 == o2,
{
    if o1 < o2 {
        assert(offset_blocked(coords, cs, ns, p, ms, o1));
    } else if o2 < o1 {
        assert(offset_blocked(coords, cs, ns, p, ms, o2));
    }
}

/// A grid laid out at the first free offset shows that the layout is
/// satisfiable.
proof fn lemma_laid_out_satisfiable(
    g: TriGrid,
    payload: Seq<u8>,
    coords: Seq<(usize, usize)>,
    cs: Seq<ConstraintMask>,
    fill: Seq<u8>,
    o: nat,
)
    requires
        first_free_offset(
            coords,
            cs,
            num_symbols_for(coords.len()),
            spec_parity_count(num_symbols_for(coords.len())),
            msg_symbols_for(payload.len()),
            o,
        ),
        layout_ok(g, payload, coords, cs, fill, o),
    ensures
        !layout_unsatisfiable(payload, coords, cs),
{
    let ns = num_symbols_for(coords.len());
    let p = spec_parity_count(ns);
    let ms = msg_symbols_for(payload.len());
    let cw = 6 * ns;
    let w = codeword_of(g, coords, cw);
    assert(!offset_blocked(coords, cs, ns, p, ms, o));
    if exists|o2: nat| #[trigger] first_free_offset(coords, cs, ns, p, ms, o2) && forall|w2: Seq<int>|
        w2.len() == cw && #[trigger] agrees_with_fixed(w2, payload, coords, cs, p, o2, cw) ==> !parity_holds(w2, p, cw) {
        let o2 = choose|o2: nat| #[trigger] first_free_offset(coords, cs, ns, p, ms, o2) && forall|w2: Seq<int>|
            w2.len() == cw && #[trigger] agrees_with_fixed(w2, payload, coords, cs, p, o2, cw) ==> !parity_holds(w2, p, cw);
        lemma_first_free_unique(coords, cs, ns, p, ms, o, o2);
        assert(w.len() == cw);
        assert(agrees_with_fixed(w, payload, coords, cs, p, o, cw));
    }
}

/// How a grid is solved does not depend on the fill values but in its free
/// cells: two outcomes for the same payload, grid size and constraints,
/// whatever fill values guided them, both succeed or fail alike (with the
/// same error), and two solved grids agree on every anchor cell and on the
/// length prefix. (So the image-guided solver succeeds exactly when the
/// plain one does.)
pub proof fn law_outcome_independent_of_fill(
    r1: Result<TriGrid, SolverError>,
    r2: Result<TriGrid, SolverError>,
    payload: Seq<u8>,
    rows: usize,
    cols: usize,
    cs: Seq<ConstraintMask>,
    fill1: Seq<u8>,
    fill2: Seq<u8>,
)
    requires
        solver_outcome(r1, payload, rows, cols, cs, fill1),
        solver_outcome(r2, payload, rows, cols, cs, fill2),
    ensures
        r1 is Ok <==> r2 is Ok,
        r1 is Err ==> r1 == r2,
        r1 is Ok && r2 is Ok ==> {
            let g1 = r1->Ok_0;
            let g2 = r2->Ok_0;
            let coords = spec_flat_coords(rows, cols);
            &&& forall|k: int, dr: int, dc: int|
                0 <= k < 4 && 0 <= dr < 5 && 0 <= dc < 8 ==> #[trigger] g1.cell(
                    corner_origin(k, rows as int, cols as int).0 + dc,
                    corner_origin(k, rows as int, cols as int).1 + dr,
                ) == g2.cell(
                    corner_origin(k, rows as int, cols as int).0 + dc,
                    corner_origin(k, rows as int, cols as int).1 + dr,
                )
            &&& forall|f: int|
                0 <= f < coords.len() && f < 12 ==> #[trigger] g1.cell(coords[f].0 as int, coords[f].1 as int)
                    == g2.cell(coords[f].0 as int, coords[f].1 as int)
        },
{
    let coords = spec_flat_coords(rows, cols);
    let ns = num_symbols_for(coords.len());
    let p = spec_parity_count(ns);
    let ms = msg_symbols_for(payload.len());
    // a conflict is the first constraint inside an anchor block, on both sides
    if exists|k: int| #[trigger] first_anchor_conflict(cs, rows, cols, k) {
        let k = choose|k: int| #[trigger] first_anchor_conflict(cs, rows, cols, k);
        assert(!no_anchor_conflict(cs, rows, cols));
        let k1 = choose|k1: int|
            #[trigger] first_anchor_conflict(cs, rows, cols, k1) && r1 == Err::<TriGrid, SolverError>(
                SolverError::Conflict { x: cs[k1].x, y: cs[k1].y },
            );
        let k2 = choose|k2: int|
            #[trigger] first_anchor_conflict(cs, rows, cols, k2) && r2 == Err::<TriGrid, SolverError>(
                SolverError::Conflict { x: cs[k2].x, y: cs[k2].y },
            );
        if k1 < k2 {
            assert(!in_anchor_region(cs[k1].x as int, cs[k1].y as int, rows as int, cols as int));
        } else if k2 < k1 {
            assert(!in_anchor_region(cs[k2].x as int, cs[k2].y as int, rows as int, cols as int));
        }
    } else {
        assert(no_anchor_conflict(cs, rows, cols));
        assert(layout_result(r1, payload, rows, cols, cs, fill1));
        assert(layout_result(r2, payload, rows, cols, cs, fill2));
        if r1 is Ok {
            let g1 = r1->Ok_0;
            let o1 = choose|o: nat| #[trigger] first_free_offset(coords, cs, ns, p, ms, o) && layout_ok(g1, payload, coords, cs, fill1, o);
            lemma_laid_out_satisfiable(g1, payload, coords, cs, fill1, o1);
        }
        if r2 is Ok {
            let g2 = r2->Ok_0;
            let o2 = choose|o: nat| #[trigger] first_free_offset(coords, cs, ns, p, ms, o) && layout_ok(g2, payload, coords, cs, fill2, o);
            lemma_laid_out_satisfiable(g2, payload, coords, cs, fill2, o2);
        }
        if r1 is Ok && r2 is Ok {
            let g1 = r1->Ok_0;
            let g2 = r2->Ok_0;
            assert forall|k: int, dr: int, dc: int| 0 <= k < 4 && 0 <= dr < 5 && 0 <= dc < 8 implies #[trigger] g1.cell(
                corner_origin(k, rows as int, cols as int).0 + dc,
                corner_origin(k, rows as int, cols as int).1 + dr,
            ) == g2.cell(
                corner_origin(k, rows as int, cols as int).0 + dc,
                corner_origin(k, rows as int, cols as int).1 + dr,
            ) by {
                assert(g1.cell(
                    corner_origin(k, g1.rows as int, g1.cols as int).0 + dc,
                    corner_origin(k, g1.rows as int, g1.cols as int).1 + dr,
                ) == pattern_cell(k, dr, dc));
                assert(g2.cell(
                    corner_origin(k, g2.rows as int, g2.cols as int).0 + dc,
                    corner_origin(k, g2.rows as int, g2.cols as int).1 + dr,
                ) == pattern_cell(k, dr, dc));
            }
        }
    }
}

/// Parity sums are additive in the word.
proof fn lemma_psum_add(e: int, x: Seq<int>, y: Seq<int>, z: Seq<int>, n: int)
    requires
        forall|j: int| 0 <= j < n ==> #[trigger] z[j] == x[j] + y[j],
    ensures
        parity_sum(e, z, n) == parity_sum(e, x, n) + parity_sum(e, y, n),
    decreases n,
{
    if n > 0 {
        lemma_psum_add(e, x, y, z, n - 1);
        let c = n - 1;
        let q = eq_coeff(e, c);
        assert(z[c] == x[c] + y[c]);
        assert(q * z[c] == q * x[c] + q * y[c]) by (nonlinear_arith)
            requires
                z[c] == x[c] + y[c],
        ;
    }
}

/// A word that is zero at the pinned trits has its parity sums in the
/// parity system.
proof fn lemma_psum_is_system(e: int, d: Seq<int>, isf: Seq<bool>, n: int)
    requires
        forall|j: int| 0 <= j < n && #[trigger] isf[j] ==> d[j] == 0,
    ensures
        parity_sum(e, d, n) == system_dot(e, d, isf, n),
    decreases n,
{
    if n > 0 {
        lemma_psum_is_system(e, d, isf, n - 1);
        let c = n - 1;
        if isf[c] {
            assert(d[c] == 0);
            assert(eq_coeff(e, c) * d[c] == 0) by (nonlinear_arith)
                requires
                    d[c] == 0,
            ;
        }
    }
}

/// Entries that are zero from `m` on add nothing to a system dot product.
proof fn lemma_sys_tail(e: int, d: Seq<int>, isf: Seq<bool>, m: int, n: int)
    requires
        0 <= m <= n,
        forall|j: int| m <= j < n ==> #[trigger] d[j] == 0,
    ensures
        system_dot(e, d, isf, n) == system_dot(e, d, isf, m),
    decreases n - m,
{
    if n > m {
        lemma_sys_tail(e, d, isf, m, n - 1);
        assert(d[n - 1] == 0);
        assert(system_entry(e, n - 1, isf) * d[n - 1] == 0) by (nonlinear_arith)
            requires
                d[n - 1] == 0,
        ;
    }
}

/// Scaling the vector scales a system dot product.
proof fn lemma_sys_scale(e: int, x: Seq<int>, z: Seq<int>, isf: Seq<bool>, k: int, n: int)
    requires
        forall|j: int| 0 <= j < n ==> #[trigger] z[j] == k * x[j],
    ensures
        system_dot(e, z, isf, n) == k * system_dot(e, x, isf, n),
    decreases n,
{
    if n > 0 {
        lemma_sys_scale(e, x, z, isf, k, n - 1);
        let c = n - 1;
        let q = system_entry(e, c, isf);
        let r = system_dot(e, x, isf, c);
        assert(z[c] == k * x[c]);
        assert(k * r + q * (k * x[c]) == k * (r + q * x[c])) by (nonlinear_arith);
    }
}

/// Two codewords that satisfy the parity checks, agree at the pinned trits,
/// have their free trits in `0..3` and agree at every free trit whose column
/// in the parity system is a combination of the earlier columns, are equal.
proof fn lemma_codeword_unique(w1: Seq<int>, w2: Seq<int>, isf: Seq<bool>, p: nat, cw: nat)
    requires
        w1.len() == cw,
        w2.len() == cw,
        isf.len() == cw,
        parity_holds(w1, p, cw),
        parity_holds(w2, p, cw),
        forall|f: int| 0 <= f < cw && #[trigger] isf[f] ==> w1[f] == w2[f],
        forall|f: int| 0 <= f < cw && !isf[f] ==> 0 <= #[trigger] w1[f] < 3 && 0 <= w2[f] < 3,
        forall|f: int|
            0 <= f < cw && !isf[f] && #[trigger] system_col_in_span((6 * p) as int, isf, f) ==> w1[f] == w2[f],
    ensures
        w1 == w2,
{
    let n = cw as int;
    if exists|j: int| 0 <= j < n && w1[j] != w2[j] {
        let c = lemma_last_difference(w1, w2, n);
        assert(!isf[c]);
        assert(0 <= w1[c] < 3 && 0 <= w2[c] < 3);
        let d = Seq::new(cw, |j: int| w1[j] - w2[j]);
        let s = d[c];
        assert(s == 1 || s == 2 || s == -1 || s == -2);
        let lam = Seq::new(c as nat, |j: int| -s * d[j]);
        assert forall|e: int| 0 <= e < 6 * p implies cong3(
            #[trigger] system_dot(e, lam, isf, c),
            system_entry(e, c, isf),
        ) by {
            lemma_psum_add(e, w2, d, w1, n);
            assert(parity_sum(e, w1, n) % 3 == 0);
            assert(parity_sum(e, w2, n) % 3 == 0);
            assert forall|j: int| 0 <= j < n && #[trigger] isf[j] implies d[j] == 0 by {
                assert(w1[j] == w2[j]);
            }
            lemma_psum_is_system(e, d, isf, n);
            assert forall|j: int| c + 1 <= j < n implies #[trigger] d[j] == 0 by {
                assert(w1[j] == w2[j]);
            }
            lemma_sys_tail(e, d, isf, c + 1, n);
            let ee = system_entry(e, c, isf);
            let dsum = system_dot(e, d, isf, c);
            assert(system_dot(e, d, isf, c + 1) == dsum + ee * s);
            let t = dsum + ee * s;
            let p1 = parity_sum(e, w1, n);
            let p2 = parity_sum(e, w2, n);
            assert(p1 == p2 + t);
            vstd::arithmetic::div_mod::lemma_fundamental_div_mod(p1, 3);
            vstd::arithmetic::div_mod::lemma_fundamental_div_mod(p2, 3);
            let q = p1 / 3 - p2 / 3;
            assert(t == 3 * q);
            lemma_sys_scale(e, d, lam, isf, -s, c);
            assert(system_dot(e, lam, isf, c) == -s * dsum);
            assert(-s * dsum - ee == 3 * (-s * q + (if s == 1 || s == -1 { 0int } else { ee }))) by (nonlinear_arith)
                requires
                    t == dsum + ee * s,
                    t == 3 * q,
                    s == 1 || s == 2 || s == -1 || s == -2,
            ;
            vstd::arithmetic::div_mod::lemma_mod_multiples_basic(
                -s * q + (if s == 1 || s == -1 { 0int } else { ee }),
                3,
            );
        }
        assert(lam.len() == c);
        assert(lam.len() == c && forall|e: int|
            0 <= e < (6 * p) as int ==> cong3(#[trigger] system_dot(e, lam, isf, c), system_entry(e, c, isf)));
        assert(system_col_in_span((6 * p) as int, isf, c));
        assert(w1[c] == w2[c]);
    }
    assert(w1 =~= w2);
}

/// Every cell outside the anchor blocks is a data cell.
proof fn lemma_data_cell(rows: usize, cols: usize, col: int, row: int) -> (f: int)
    requires
        0 <= col < cols,
        0 <= row < rows,
        rows * cols <= usize::MAX,
        !in_anchor_region(col, row, rows as int, cols as int),
    ensures
        0 <= f < spec_flat_coords(rows, cols).len(),
        spec_flat_coords(rows, cols)[f] == (col as usize, row as usize),
{
    let all = Seq::new((rows * cols) as nat, |i: int| cell_at(i, cols as int));
    let i = row * cols + col;
    crate::modular::lemma_index_row_col(row, col, cols as int);
    crate::modular::lemma_index_bound(row, col, rows as int, cols as int);
    assert(all[i] == (col as usize, row as usize));
    assert(outside_anchors(rows, cols)(all[i]));
    all.lemma_filter_contains(outside_anchors(rows, cols), i);
    let coords = all.filter(outside_anchors(rows, cols));
    assert(coords == spec_flat_coords(rows, cols));
    let f = choose|f: int| 0 <= f < coords.len() && coords[f] == all[i];
    f
}

/// The outcome of solving is determined by its inputs: two outcomes for the
/// same payload, grid size, constraints and fill values are the same error
/// or grids with the same cells. (So the image-guided solver with a target
/// map of the wrong length gives what the plain solver gives.)
pub proof fn law_outcome_determined(
    r1: Result<TriGrid, SolverError>,
    r2: Result<TriGrid, SolverError>,
    payload: Seq<u8>,
    rows: usize,
    cols: usize,
    cs: Seq<ConstraintMask>,
    fill: Seq<u8>,
)
    requires
        rows >= 2 * TRI_ANCHOR_ROWS,
        cols >= 2 * TRI_ANCHOR_COLS,
        solver_outcome(r1, payload, rows, cols, cs, fill),
        solver_outcome(r2, payload, rows, cols, cs, fill),
    ensures
        r1 is Err ==> r1 == r2,
        r1 is Ok ==> r2 is Ok && r1->Ok_0.rows == r2->Ok_0.rows && r1->Ok_0.cols == r2->Ok_0.cols
            && r1->Ok_0.data@ == r2->Ok_0.data@,
{
    law_outcome_independent_of_fill(r1, r2, payload, rows, cols, cs, fill, fill);
    if r1 is Ok {
        let g1 = r1->Ok_0;
        let g2 = r2->Ok_0;
        let coords = spec_flat_coords(rows, cols);
        let ns = num_symbols_for(coords.len());
        let p = spec_parity_count(ns);
        let ms = msg_symbols_for(payload.len());
        let cw = 6 * ns;
        assert(no_anchor_conflict(cs, rows, cols)) by {
            if !no_anchor_conflict(cs, rows, cols) {
                let k = choose|k: int| #[trigger] first_anchor_conflict(cs, rows, cols, k) && r1 == Err::<TriGrid, SolverError>(
                    SolverError::Conflict { x: cs[k].x, y: cs[k].y },
                );
            }
        }
        assert(layout_result(r1, payload, rows, cols, cs, fill));
        assert(layout_result(r2, payload, rows, cols, cs, fill));
        let o1 = choose|o: nat| #[trigger] first_free_offset(coords, cs, ns, p, ms, o) && layout_ok(g1, payload, coords, cs, fill, o);
        let o2 = choose|o: nat| #[trigger] first_free_offset(coords, cs, ns, p, ms, o) && layout_ok(g2, payload, coords, cs, fill, o);
        lemma_first_free_unique(coords, cs, ns, p, ms, o1, o2);
        let w1 = codeword_of(g1, coords, cw);
        let w2 = codeword_of(g2, coords, cw);
        let isf = pinned(payload, coords, cs, p, o1, cw);
        assert forall|f: int| 0 <= f < cw && #[trigger] isf[f] implies w1[f] == w2[f] by {
            assert(fixed_trit(payload, coords, cs, p, o1, f) is Some);
        }
        assert forall|f: int| 0 <= f < cw && !isf[f] implies 0 <= #[trigger] w1[f] < 3 && 0 <= w2[f] < 3 by {
            assert(fixed_trit(payload, coords, cs, p, o1, f) is None);
        }
        assert forall|f: int|
            0 <= f < cw && !isf[f] && #[trigger] system_col_in_span((6 * p) as int, isf, f) implies w1[f] == w2[f] by {
            assert(fixed_trit(payload, coords, cs, p, o1, f) is None);
        }
        lemma_codeword_unique(w1, w2, isf, p, cw);
        // every cell agrees
        assert forall|col: int, row: int| 0 <= col < cols && 0 <= row < rows implies #[trigger] g1.cell(col, row)
            == g2.cell(col, row) by {
            if in_anchor_region(col, row, rows as int, cols as int) {
                let k = choose|k: int| 0 <= k < 4 && #[trigger] in_corner(k, col, row, rows as int, cols as int);
                let dc = col - corner_origin(k, rows as int, cols as int).0;
                let dr = row - corner_origin(k, rows as int, cols as int).1;
                assert(g1.cell(
                    corner_origin(k, g1.rows as int, g1.cols as int).0 + dc,
                    corner_origin(k, g1.rows as int, g1.cols as int).1 + dr,
                ) == pattern_cell(k, dr, dc));
                assert(g2.cell(
                    corner_origin(k, g2.rows as int, g2.cols as int).0 + dc,
                    corner_origin(k, g2.rows as int, g2.cols as int).1 + dr,
                ) == pattern_cell(k, dr, dc));
            } else {
                let f = lemma_data_cell(rows, cols, col, row);
                assert(coords[f].0 as int == col && coords[f].1 as int == row);
                if f < 12 {
                    assert(g1.cell(coords[f].0 as int, coords[f].1 as int) == spec_length_trits(cw)[f]);
                    assert(g2.cell(coords[f].0 as int, coords[f].1 as int) == spec_length_trits(cw)[f]);
                } else if f < 12 + cw {
                    assert(w1[f - 12] == w2[f - 12]);
                } else {
                    assert(g1.cell(coords[f].0 as int, coords[f].1 as int) == outer_value(coords, cs, fill, f));
                    assert(g2.cell(coords[f].0 as int, coords[f].1 as int) == outer_value(coords, cs, fill, f));
                }
            }
        }
        assert forall|i: int| 0 <= i < g1.data@.len() implies g1.data@[i] == g2.data@[i] by {
            let row = i / (cols as int);
            let col = i % (cols as int);
            vstd::arithmetic::div_mod::lemma_fundamental_div_mod(i, cols as int);
            assert(0 <= row < rows) by (nonlinear_arith)
                requires
                    0 <= i < rows * cols,
                    row == i / (cols as int),
                    cols > 0,
            ;
            assert(row * cols + col == i);
            assert(g1.cell(col, row) == g2.cell(col, row));
        }
        assert(g1.data@ =~= g2.data@);
    }
}

} // verus!
