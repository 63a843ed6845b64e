//! Laying out rasterized glyphs as grid constraints.
//!
//! Each glyph is a 5 × 7 bitmap of optional states: `Some(0)` is a stroke,
//! `Some(2)` a halo, `None` a cell left to the solver. Glyphs are placed left
//! to right with a one-column gap; a one-cell light border (state 2) is put
//! around the text block where it does not cover a glyph cell.
use vstd::prelude::*;
use crate::solver::ConstraintMask;

verus! {

/// Width of a glyph in cells.
pub const GLYPH_WIDTH: usize = 5;

/// Height of a glyph in cells.
pub const GLYPH_HEIGHT: usize = 7;

/// The constraints of the first `k` cells (row-major) of glyph `g` placed
/// with its top-left cell at `(x0, y0)`.
pub open spec fn glyph_cells(g: [[Option<u8>; 5]; 7], x0: int, y0: int, k: nat) -> Seq<ConstraintMask>
    decreases k,
{
    if k == 0 {
        Seq::empty()
    } else {
        let prev = glyph_cells(g, x0, y0, (k - 1) as nat);
        let r = (k - 1) / 5;
        let c = (k - 1) % 5;
        match g[r][c] {
            Some(s) => prev.push(ConstraintMask { x: (x0 + c) as usize, y: (y0 + r) as usize, required_state: s }),
            None => prev,
        }
    }
}

/// The constraints of the first `n` glyphs; glyph `i` starts at column
/// `sx + 6 i` (its width plus a one-column gap per glyph before it).
pub open spec fn glyph_run(glyphs: Seq<[[Option<u8>; 5]; 7]>, sx: int, sy: int, n: nat) -> Seq<ConstraintMask>
    decreases n,
{
    if n == 0 {
        Seq::empty()
    } else {
        glyph_run(glyphs, sx, sy, (n - 1) as nat) + glyph_cells(glyphs[n - 1], sx + 6 * (n - 1), sy, 35)
    }
}

/// Some constraint of `cs` sits at `(x, y)`.
pub open spec fn occupied(cs: Seq<ConstraintMask>, x: int, y: int) -> bool {
    exists|j: int| 0 <= j < cs.len() && #[trigger] cs[j].x == x && cs[j].y == y
}

/// Light cells along row `y` for `x` in `lo .. lo + n`, skipping cells
/// that `cs` occupies.
pub open spec fn border_row(cs: Seq<ConstraintMask>, lo: int, n: nat, y: int) -> Seq<ConstraintMask>
    decreases n,
{
    if n == 0 {
        Seq::empty()
    } else {
        let prev = border_row(cs, lo, (n - 1) as nat, y);
        let x = lo + n - 1;
        if occupied(cs, x, y) {
            prev
        } else {
            prev.push(ConstraintMask { x: x as usize, y: y as usize, required_state: 2 })
        }
    }
}

/// Light cells along column `x` for `y` in `lo .. lo + n`, skipping cells
/// that `cs` occupies.
pub open spec fn border_col(cs: Seq<ConstraintMask>, x: int, lo: int, n: nat) -> Seq<ConstraintMask>
    decreases n,
{
    if n == 0 {
        Seq::empty()
    } else {
        let prev = border_col(cs, x, lo, (n - 1) as nat);
        let y = lo + n - 1;
        if occupied(cs, x, y) {
            prev
        } else {
            prev.push(ConstraintMask { x: x as usize, y: y as usize, required_state: 2 })
        }
    }
}

/// The constraints of a text laid out from `(sx, sy)`: the glyph cells,
/// then (when there is text and room above and to the left) the top row,
/// bottom row, left column and right column of the border.
pub open spec fn text_layout(glyphs: Seq<[[Option<u8>; 5]; 7]>, sx: int, sy: int) -> Seq<ConstraintMask> {
    let n = glyphs.len();
    let g = glyph_run(glyphs, sx, sy, n);
    if n > 0 && sx > 0 && sy > 0 {
        let bx0 = sx - 1;
        let bx1 = sx + 6 * n - 1;
        let by0 = sy - 1;
        let by1 = sy + 7;
        let span = (bx1 - bx0 + 1) as nat;
        g + border_row(g, bx0, span, by0) + border_row(g, bx0, span, by1) + border_col(g, bx0, sy, 7)
            + border_col(g, bx1, sy, 7)
    } else {
        g
    }
}

/// Whether one of the first `n` constraints of `cs` sits at `(x, y)`.
fn occupied_prefix(cs: &Vec<ConstraintMask>, n: usize, x: usize, y: usize) -> (r: bool)
    requires
        n <= cs@.len(),
    ensures
        r == occupied(cs@.subrange(0, n as int), x as int, y as int),
{
    let ghost g = cs@.subrange(0, n as int);
    let mut j: usize = 0;
    while j < n
        invariant
            n <= cs@.len(),
            g == cs@.subrange(0, n as int),
            0 <= j <= n,
            forall|i: int| 0 <= i < j ==> !(g[i].x == x && g[i].y == y),
        decreases n - j,
    {
        if cs[j].x == x && cs[j].y == y {
            assert(g[j as int].x == x && g[j as int].y == y);
            return true;
        }
        j = j + 1;
    }
    false
}

/// Lays out text whose characters are already rasterized.
pub struct TrixelFont;

impl TrixelFont {
    /// The constraints for a text whose glyphs (one per character) are
    /// `glyphs`, starting at `(start_x, start_y)`: each glyph cell with a
    /// state becomes a constraint, glyphs advance by their width plus a
    /// one-column gap, and when there is text and `start_x`, `start_y` are
    /// positive a light border surrounds the text block, skipping glyph
    /// cells.
    pub fn constraints_for_glyphs(glyphs: &[[[Option<u8>; 5]; 7]], start_x: usize, start_y: usize) -> (r: Vec<
        ConstraintMask,
    >)
        requires
            start_x + 6 * glyphs@.len() <= usize::MAX,
            start_y + 8 <= usize::MAX,
        ensures
            r@ == text_layout(glyphs@, start_x as int, start_y as int),
    {
        let n = glyphs.len();
        let mut out: Vec<ConstraintMask> = Vec::new();
        let mut i: usize = 0;
        while i < n
            invariant
                n == glyphs@.len(),
                start_x + 6 * n <= usize::MAX,
                start_y + 8 <= usize::MAX,
                0 <= i <= n,
                out@ == glyph_run(glyphs@, start_x as int, start_y as int, i as nat),
            decreases n - i,
        {
            let cursor = start_x + 6 * i;
            let g = &glyphs[i];
            let ghost before = out@;
            let mut k: usize = 0;
            while k < 35
                invariant
                    n == glyphs@.len(),
                    i < n,
                    start_x + 6 * n <= usize::MAX,
                    start_y + 8 <= usize::MAX,
                    cursor == start_x + 6 * i,
                    *g == glyphs@[i as int],
                    0 <= k <= 35,
                    out@ == before + glyph_cells(*g, cursor as int, start_y as int, k as nat),
                decreases 35 - k,
            {
                let r = k / 5;
                let c = k % 5;
                if let Some(s) = g[r][c] {
                    out.push(ConstraintMask { x: cursor + c, y: start_y + r, required_state: s });
                }
                proof {
                    assert(out@ =~= before + glyph_cells(*g, cursor as int, start_y as int, (k + 1) as nat));
                }
                k = k + 1;
            }
            i = i + 1;
        }
        if n > 0 && start_x > 0 && start_y > 0 {
            let glen = out.len();
            let ghost gs = out@;
            let bx0 = start_x - 1;
            let bx1 = start_x + 6 * n - 1;
            let by0 = start_y - 1;
            let by1 = start_y + 7;
            let span = bx1 - bx0 + 1;
            // top row
            let mut t: usize = 0;
            while t < span
                invariant
                    glen == gs.len(),
                    glen <= out@.len(),
                    out@.subrange(0, glen as int) == gs,
                    span == bx1 - bx0 + 1,
                    bx1 + 1 <= usize::MAX,
                    0 <= t <= span,
                    out@ == gs + border_row(gs, bx0 as int, t as nat, by0 as int),
                decreases span - t,
            {
                let x = bx0 + t;
                proof {
                    assert(out@.subrange(0, glen as int) == gs);
                }
                if !occupied_prefix(&out, glen, x, by0) {
                    out.push(ConstraintMask { x, y: by0, required_state: 2 });
                }
                proof {
                    assert(out@ =~= gs + border_row(gs, bx0 as int, (t + 1) as nat, by0 as int));
                    assert(out@.subrange(0, glen as int) =~= gs);
                }
                t = t + 1;
            }
            let ghost after_top = out@;
            // bottom row
            let mut t: usize = 0;
            while t < span
                invariant
                    glen == gs.len(),
                    glen <= out@.len(),
                    out@.subrange(0, glen as int) == gs,
                    span == bx1 - bx0 + 1,
                    bx1 + 1 <= usize::MAX,
                    0 <= t <= span,
                    out@ == after_top + border_row(gs, bx0 as int, t as nat, by1 as int),
                    after_top.len() >= glen,
                    after_top.subrange(0, glen as int) == gs,
                decreases span - t,
            {
                let x = bx0 + t;
                if !occupied_prefix(&out, glen, x, by1) {
                    out.push(ConstraintMask { x, y: by1, required_state: 2 });
                }
                proof {
                    assert(out@ =~= after_top + border_row(gs, bx0 as int, (t + 1) as nat, by1 as int));
                    assert(out@.subrange(0, glen as int) =~= after_top.subrange(0, glen as int));
                }
                t = t + 1;
            }
            let ghost after_bottom = out@;
            // left column
            let mut t: usize = 0;
            while t < 7
                invariant
                    glen == gs.len(),
                    glen <= out@.len(),
                    out@.subrange(0, glen as int) == gs,
                    start_y + 8 <= usize::MAX,
                    0 <= t <= 7,
                    out@ == after_bottom + border_col(gs, bx0 as int, start_y as int, t as nat),
                    after_bottom.len() >= glen,
                    after_bottom.subrange(0, glen as int) == gs,
                decreases 7 - t,
            {
                let y = start_y + t;
                if !occupied_prefix(&out, glen, bx0, y) {
                    out.push(ConstraintMask { x: bx0, y, required_state: 2 });
                }
                proof {
                    assert(out@ =~= after_bottom + border_col(gs, bx0 as int, start_y as int, (t + 1) as nat));
                    assert(out@.subrange(0, glen as int) =~= after_bottom.subrange(0, glen as int));
                }
                t = t + 1;
            }
            let ghost after_left = out@;
            // right column
            let mut t: usize = 0;
            while t < 7
                invariant
                    glen == gs.len(),
                    glen <= out@.len(),
                    out@.subrange(0, glen as int) == gs,
                    start_y + 8 <= usize::MAX,
                    0 <= t <= 7,
                    out@ == after_left + border_col(gs, bx1 as int, start_y as int, t as nat),
                    after_left.len() >= glen,
                    after_left.subrange(0, glen as int) == gs,
                decreases 7 - t,
            {
                let y = start_y + t;
                if !occupied_prefix(&out, glen, bx1, y) {
                    out.push(ConstraintMask { x: bx1, y, required_state: 2 });
                }
                proof {
                    assert(out@ =~= after_left + border_col(gs, bx1 as int, start_y as int, (t + 1) as nat));
                    assert(out@.subrange(0, glen as int) =~= after_left.subrange(0, glen as int));
                }
                t = t + 1;
            }
        }
        out
    }
}

/// `a` and `b` name the same cell.
pub open spec fn same_cell(a: ConstraintMask, b: ConstraintMask) -> bool {
    a.x == b.x && a.y == b.y
}

/// No two constraints of `cs` name the same cell.
pub open spec fn cells_distinct(cs: Seq<ConstraintMask>) -> bool {
    forall|i: int, j: int| 0 <= i < j < cs.len() ==> !same_cell(#[trigger] cs[i], #[trigger] cs[j])
}

/// No constraint of `a` names a cell that one of `b` names.
pub open spec fn cells_disjoint(a: Seq<ConstraintMask>, b: Seq<ConstraintMask>) -> bool {
    forall|i: int, j: int| 0 <= i < a.len() && 0 <= j < b.len() ==> !same_cell(#[trigger] a[i], #[trigger] b[j])
}

proof fn lemma_distinct_concat(a: Seq<ConstraintMask>, b: Seq<ConstraintMask>)
    requires
        cells_distinct(a),
        cells_distinct(b),
        cells_disjoint(a, b),
    ensures
        cells_distinct(a + b),
{
    let c = a + b;
    assert forall|i: int, j: int| 0 <= i < j < c.len() implies !same_cell(#[trigger] c[i], #[trigger] c[j]) by {
        if j < a.len() {
            assert(c[i] == a[i] && c[j] == a[j]);
        } else if i >= a.len() {
            assert(c[i] == b[i - a.len()] && c[j] == b[j - a.len()]);
        } else {
            assert(c[i] == a[i] && c[j] == b[j - a.len()]);
        }
    }
}

proof fn lemma_disjoint_concat(a1: Seq<ConstraintMask>, a2: Seq<ConstraintMask>, b: Seq<ConstraintMask>)
    requires
        cells_disjoint(a1, b),
        cells_disjoint(a2, b),
    ensures
        cells_disjoint(a1 + a2, b),
{
    let c = a1 + a2;
    assert forall|i: int, j: int| 0 <= i < c.len() && 0 <= j < b.len() implies !same_cell(#[trigger] c[i], #[trigger] b[j]) by {
        if i < a1.len() {
            assert(c[i] == a1[i]);
        } else {
            assert(c[i] == a2[i - a1.len()]);
        }
    }
}

/// The cells of a glyph lie in its 5 × 7 block, in row-major order before
/// cell `k`, and are distinct.
proof fn lemma_glyph_cells(g: [[Option<u8>; 5]; 7], x0: int, y0: int, k: nat)
    requires
        0 <= x0,
        x0 + 4 <= usize::MAX,
        0 <= y0,
        y0 + 6 <= usize::MAX,
        k <= 35,
    ensures
        cells_distinct(glyph_cells(g, x0, y0, k)),
        forall|i: int|
            0 <= i < glyph_cells(g, x0, y0, k).len() ==> {
                let e = #[trigger] glyph_cells(g, x0, y0, k)[i];
                &&& x0 <= e.x <= x0 + 4
                &&& y0 <= e.y <= y0 + 6
                &&& (e.y - y0) * 5 + (e.x - x0) < k
            },
    decreases k,
{
    if k > 0 {
        lemma_glyph_cells(g, x0, y0, (k - 1) as nat);
        let prev = glyph_cells(g, x0, y0, (k - 1) as nat);
        let r = (k - 1) / 5;
        let c = (k - 1) % 5;
        match g[r][c] {
            Some(st) => {
                let e = ConstraintMask { x: (x0 + c) as usize, y: (y0 + r) as usize, required_state: st };
                let cur = prev.push(e);
                assert(e.x == x0 + c && e.y == y0 + r);
                assert((e.y - y0) * 5 + (e.x - x0) == k - 1);
                assert forall|i: int, j: int| 0 <= i < j < cur.len() implies !same_cell(#[trigger] cur[i], #[trigger] cur[j]) by {
                    assert(cur[i] == prev[i]);
                    if j < prev.len() {
                        assert(cur[j] == prev[j]);
                    } else {
                        assert(cur[j] == e);
                        let f = prev[i];
                        assert((f.y - y0) * 5 + (f.x - x0) < k - 1);
                    }
                }
                assert forall|i: int| 0 <= i < cur.len() implies {
                    let e2 = #[trigger] cur[i];
                    &&& x0 <= e2.x <= x0 + 4
                    &&& y0 <= e2.y <= y0 + 6
                    &&& (e2.y - y0) * 5 + (e2.x - x0) < k
                } by {
                    if i < prev.len() {
                        assert(cur[i] == prev[i]);
                    }
                }
            },
            None => {},
        }
    }
}

/// The cells of the first `n` glyphs lie in their columns and rows, off the
/// gap columns, and are distinct.
proof fn lemma_glyph_run(glyphs: Seq<[[Option<u8>; 5]; 7]>, sx: int, sy: int, n: nat)
    requires
        0 <= sx,
        0 <= sy,
        n <= glyphs.len(),
        sx + 6 * n <= usize::MAX,
        sy + 6 <= usize::MAX,
    ensures
        cells_distinct(glyph_run(glyphs, sx, sy, n)),
        forall|i: int|
            0 <= i < glyph_run(glyphs, sx, sy, n).len() ==> {
                let e = #[trigger] glyph_run(glyphs, sx, sy, n)[i];
                &&& sx <= e.x < sx + 6 * n
                &&& sy <= e.y <= sy + 6
                &&& (e.x - sx) % 6 < 5
            },
    decreases n,
{
    if n > 0 {
        let m = (n - 1) as nat;
        lemma_glyph_run(glyphs, sx, sy, m);
        let prev = glyph_run(glyphs, sx, sy, m);
        let x0 = sx + 6 * m;
        let cells = glyph_cells(glyphs[m as int], x0, sy, 35);
        lemma_glyph_cells(glyphs[m as int], x0, sy, 35);
        assert forall|i: int, j: int| 0 <= i < prev.len() && 0 <= j < cells.len() implies !same_cell(
            #[trigger] prev[i],
            #[trigger] cells[j],
        ) by {
            assert(prev[i].x < x0);
            assert(cells[j].x >= x0);
        }
        lemma_distinct_concat(prev, cells);
        let cur = prev + cells;
        assert forall|i: int| 0 <= i < cur.len() implies {
            let e = #[trigger] cur[i];
            &&& sx <= e.x < sx + 6 * n
            &&& sy <= e.y <= sy + 6
            &&& (e.x - sx) % 6 < 5
        } by {
            if i < prev.len() {
                assert(cur[i] == prev[i]);
            } else {
                let e = cells[i - prev.len()];
                assert(cur[i] == e);
                assert(x0 <= e.x <= x0 + 4);
                assert((e.x - sx) % 6 == e.x - x0) by {
                    vstd::arithmetic::div_mod::lemma_fundamental_div_mod_converse(e.x - sx, 6, m as int, e.x - x0);
                }
            }
        }
    }
}

/// A border row holds light cells on row `y` within `lo .. lo + n`, off the
/// occupied cells, and distinct.
proof fn lemma_border_row(cs: Seq<ConstraintMask>, lo: int, n: nat, y: int)
    requires
        0 <= lo,
        lo + n <= usize::MAX + 1,
        0 <= y <= usize::MAX,
    ensures
        cells_distinct(border_row(cs, lo, n, y)),
        forall|i: int|
            0 <= i < border_row(cs, lo, n, y).len() ==> {
                let e = #[trigger] border_row(cs, lo, n, y)[i];
                &&& e.y == y
                &&& lo <= e.x < lo + n
                &&& e.required_state == 2
                &&& !occupied(cs, e.x as int, e.y as int)
            },
    decreases n,
{
    if n > 0 {
        let m = (n - 1) as nat;
        lemma_border_row(cs, lo, m, y);
        let prev = border_row(cs, lo, m, y);
        let x = lo + m;
        if !occupied(cs, x, y) {
            let e = ConstraintMask { x: x as usize, y: y as usize, required_state: 2 };
            let cur = prev.push(e);
            assert forall|i: int, j: int| 0 <= i < j < cur.len() implies !same_cell(#[trigger] cur[i], #[trigger] cur[j]) by {
                assert(cur[i] == prev[i]);
                if j < prev.len() {
                    assert(cur[j] == prev[j]);
                } else {
                    assert(prev[i].x < x);
                }
            }
            assert forall|i: int| 0 <= i < cur.len() implies {
                let e2 = #[trigger] cur[i];
                &&& e2.y == y
                &&& lo <= e2.x < lo + n
                &&& e2.required_state == 2
                &&& !occupied(cs, e2.x as int, e2.y as int)
            } by {
                if i < prev.len() {
                    assert(cur[i] == prev[i]);
                }
            }
        }
    }
}

/// A border column holds light cells on column `x` within `lo .. lo + n`,
/// off the occupied cells, and distinct.
proof fn lemma_border_col(cs: Seq<ConstraintMask>, x: int, lo: int, n: nat)
    requires
        0 <= lo,
        lo + n <= usize::MAX + 1,
        0 <= x <= usize::MAX,
    ensures
        cells_distinct(border_col(cs, x, lo, n)),
        forall|i: int|
            0 <= i < border_col(cs, x, lo, n).len() ==> {
                let e = #[trigger] border_col(cs, x, lo, n)[i];
                &&& e.x == x
                &&& lo <= e.y < lo + n
                &&& e.required_state == 2
                &&& !occupied(cs, e.x as int, e.y as int)
            },
    decreases n,
{
    if n > 0 {
        let m = (n - 1) as nat;
        lemma_border_col(cs, x, lo, m);
        let prev = border_col(cs, x, lo, m);
        let y = lo + m;
        if !occupied(cs, x, y) {
            let e = ConstraintMask { x: x as usize, y: y as usize, required_state: 2 };
            let cur = prev.push(e);
            assert forall|i: int, j: int| 0 <= i < j < cur.len() implies !same_cell(#[trigger] cur[i], #[trigger] cur[j]) by {
                assert(cur[i] == prev[i]);
                if j < prev.len() {
                    assert(cur[j] == prev[j]);
                } else {
                    assert(prev[i].y < y);
                }
            }
            assert forall|i: int| 0 <= i < cur.len() implies {
                let e2 = #[trigger] cur[i];
                &&& e2.x == x
                &&& lo <= e2.y < lo + n
                &&& e2.required_state == 2
                &&& !occupied(cs, e2.x as int, e2.y as int)
            } by {
                if i < prev.len() {
                    assert(cur[i] == prev[i]);
                }
            }
        }
    }
}

/// Cells off the occupied ones are disjoint from the constraints occupying.
proof fn lemma_off_occupied(g: Seq<ConstraintMask>, b: Seq<ConstraintMask>)
    requires
        forall|j: int| 0 <= j < b.len() ==> !occupied(g, (#[trigger] b[j]).x as int, b[j].y as int),
    ensures
        cells_disjoint(g, b),
{
    assert forall|i: int, j: int| 0 <= i < g.len() && 0 <= j < b.len() implies !same_cell(#[trigger] g[i], #[trigger] b[j]) by {
        assert(!occupied(g, b[j].x as int, b[j].y as int));
        if same_cell(g[i], b[j]) {
            assert(g[i].x == b[j].x as int && g[i].y == b[j].y as int);
        }
    }
}

/// A laid-out text names every cell at most once, and every constraint
/// after the glyph cells is a light (state 2) border cell that no glyph
/// cell names.
pub proof fn law_text_layout_cells(glyphs: Seq<[[Option<u8>; 5]; 7]>, sx: int, sy: int)
    requires
        0 <= sx,
        0 <= sy,
        sx + 6 * glyphs.len() <= usize::MAX,
        sy + 8 <= usize::MAX,
    ensures
        cells_distinct(text_layout(glyphs, sx, sy)),
        forall|i: int|
            glyph_run(glyphs, sx, sy, glyphs.len()).len() <= i < text_layout(glyphs, sx, sy).len() ==> {
                let e = #[trigger] text_layout(glyphs, sx, sy)[i];
                &&& e.required_state == 2
                &&& !occupied(glyph_run(glyphs, sx, sy, glyphs.len()), e.x as int, e.y as int)
            },
{
    let n = glyphs.len();
    let g = glyph_run(glyphs, sx, sy, n);
    lemma_glyph_run(glyphs, sx, sy, n);
    if n > 0 && sx > 0 && sy > 0 {
        let bx0 = sx - 1;
        let bx1 = sx + 6 * n - 1;
        let by0 = sy - 1;
        let by1 = sy + 7;
        let span = (bx1 - bx0 + 1) as nat;
        let r0 = border_row(g, bx0, span, by0);
        let r1 = border_row(g, bx0, span, by1);
        let c0 = border_col(g, bx0, sy, 7);
        let c1 = border_col(g, bx1, sy, 7);
        lemma_border_row(g, bx0, span, by0);
        lemma_border_row(g, bx0, span, by1);
        lemma_border_col(g, bx0, sy, 7);
        lemma_border_col(g, bx1, sy, 7);
        lemma_off_occupied(g, r0);
        lemma_off_occupied(g, r1);
        lemma_off_occupied(g, c0);
        lemma_off_occupied(g, c1);
        // rows and columns of the border lie apart
        assert(cells_disjoint(r0, r1)) by {
            assert forall|i: int, j: int| 0 <= i < r0.len() && 0 <= j < r1.len() implies !same_cell(
                #[trigger] r0[i],
                #[trigger] r1[j],
            ) by {
                assert(r0[i].y == by0 && r1[j].y == by1);
            }
        }
        assert forall|i: int, j: int| 0 <= i < r0.len() && 0 <= j < c0.len() implies !same_cell(
            #[trigger] r0[i],
            #[trigger] c0[j],
        ) by {
            assert(r0[i].y == by0 && c0[j].y >= sy);
        }
        assert forall|i: int, j: int| 0 <= i < r1.len() && 0 <= j < c0.len() implies !same_cell(
            #[trigger] r1[i],
            #[trigger] c0[j],
        ) by {
            assert(r1[i].y == by1 && c0[j].y < sy + 7);
        }
        assert forall|i: int, j: int| 0 <= i < r0.len() && 0 <= j < c1.len() implies !same_cell(
            #[trigger] r0[i],
            #[trigger] c1[j],
        ) by {
            assert(r0[i].y == by0 && c1[j].y >= sy);
        }
        assert forall|i: int, j: int| 0 <= i < r1.len() && 0 <= j < c1.len() implies !same_cell(
            #[trigger] r1[i],
            #[trigger] c1[j],
        ) by {
            assert(r1[i].y == by1 && c1[j].y < sy + 7);
        }
        assert forall|i: int, j: int| 0 <= i < c0.len() && 0 <= j < c1.len() implies !same_cell(
            #[trigger] c0[i],
            #[trigger] c1[j],
        ) by {
            assert(c0[i].x == bx0 && c1[j].x == bx1);
        }
        lemma_distinct_concat(g, r0);
        lemma_disjoint_concat(g, r0, r1);
        lemma_distinct_concat(g + r0, r1);
        lemma_disjoint_concat(g, r0, c0);
        lemma_disjoint_concat(g + r0, r1, c0);
        lemma_distinct_concat(g + r0 + r1, c0);
        lemma_disjoint_concat(g, r0, c1);
        lemma_disjoint_concat(g + r0, r1, c1);
        lemma_disjoint_concat(g + r0 + r1, c0, c1);
        lemma_distinct_concat(g + r0 + r1 + c0, c1);
        let t = text_layout(glyphs, sx, sy);
        assert(t == g + r0 + r1 + c0 + c1);
        assert forall|i: int| g.len() <= i < t.len() implies {
            let e = #[trigger] t[i];
            &&& e.required_state == 2
            &&& !occupied(g, e.x as int, e.y as int)
        } by {
            let k = i - g.len();
            if k < r0.len() {
                assert(t[i] == r0[k]);
            } else if k < r0.len() + r1.len() {
                assert(t[i] == r1[k - r0.len()]);
            } else if k < r0.len() + r1.len() + c0.len() {
                assert(t[i] == c0[k - r0.len() - r1.len()]);
            } else {
                assert(t[i] == c1[k - r0.len() - r1.len() - c0.len()]);
            }
        }
    }
}

/// Some constraint of `cs` names cell `(x, y)` with state `st`.
pub open spec fn names_cell(cs: Seq<ConstraintMask>, x: int, y: int, st: u8) -> bool {
    exists|i: int| 0 <= i < cs.len() && (#[trigger] cs[i]).x == x && cs[i].y == y && cs[i].required_state == st
}

/// A border row names every cell of its range that `cs` does not occupy.
proof fn lemma_border_row_covers(cs: Seq<ConstraintMask>, lo: int, n: nat, y: int, x: int)
    requires
        0 <= lo <= x < lo + n,
        lo + n <= usize::MAX + 1,
        0 <= y <= usize::MAX,
        !occupied(cs, x, y),
    ensures
        names_cell(border_row(cs, lo, n, y), x, y, 2),
    decreases n,
{
    let m = (n - 1) as nat;
    let prev = border_row(cs, lo, m, y);
    if x < lo + m {
        lemma_border_row_covers(cs, lo, m, y, x);
        let i = choose|i: int| 0 <= i < prev.len() && (#[trigger] prev[i]).x == x && prev[i].y == y && prev[i].required_state == 2;
        let cur = border_row(cs, lo, n, y);
        assert(cur[i] == prev[i]);
    } else {
        let cur = border_row(cs, lo, n, y);
        assert(cur[prev.len() as int].x == x);
    }
}

/// A border column names every cell of its range that `cs` does not occupy.
proof fn lemma_border_col_covers(cs: Seq<ConstraintMask>, x: int, lo: int, n: nat, y: int)
    requires
        0 <= lo <= y < lo + n,
        lo + n <= usize::MAX + 1,
        0 <= x <= usize::MAX,
        !occupied(cs, x, y),
    ensures
        names_cell(border_col(cs, x, lo, n), x, y, 2),
    decreases n,
{
    let m = (n - 1) as nat;
    let prev = border_col(cs, x, lo, m);
    if y < lo + m {
        lemma_border_col_covers(cs, x, lo, m, y);
        let i = choose|i: int| 0 <= i < prev.len() && (#[trigger] prev[i]).x == x && prev[i].y == y && prev[i].required_state == 2;
        let cur = border_col(cs, x, lo, n);
        assert(cur[i] == prev[i]);
    } else {
        let cur = border_col(cs, x, lo, n);
        assert(cur[prev.len() as int].y == y);
    }
}

/// Naming survives concatenation on either side.
proof fn lemma_names_concat(a: Seq<ConstraintMask>, b: Seq<ConstraintMask>, x: int, y: int, st: u8)
    requires
        names_cell(a, x, y, st) || names_cell(b, x, y, st),
    ensures
        names_cell(a + b, x, y, st),
{
    let c = a + b;
    if names_cell(a, x, y, st) {
        let i = choose|i: int| 0 <= i < a.len() && (#[trigger] a[i]).x == x && a[i].y == y && a[i].required_state == st;
        assert(c[i] == a[i]);
    } else {
        let i = choose|i: int| 0 <= i < b.len() && (#[trigger] b[i]).x == x && b[i].y == y && b[i].required_state == st;
        assert(c[a.len() + i] == b[i]);
    }
}

/// The light border is complete: for text of `n > 0` glyphs placed at
/// `(sx, sy)` with `sx, sy > 0`, every cell of the rows just above and just
/// below the text block (`y = sy − 1` and `y = sy + 7`) from `x = sx − 1` to
/// `x = sx + 6n − 1`, and every cell of the columns just left of the block
/// and just after its last glyph (`x = sx − 1` and `x = sx + 6n − 1`) from
/// `y = sy` to `y = sy + 6`, is named by a constraint of state 2.
pub proof fn law_text_border_complete(glyphs: Seq<[[Option<u8>; 5]; 7]>, sx: int, sy: int)
    requires
        glyphs.len() > 0,
        0 < sx,
        0 < sy,
        sx + 6 * glyphs.len() <= usize::MAX,
        sy + 8 <= usize::MAX,
    ensures
        forall|x: int|
            sx - 1 <= x <= sx + 6 * glyphs.len() - 1 ==> #[trigger] names_cell(text_layout(glyphs, sx, sy), x, sy - 1, 2)
                && names_cell(text_layout(glyphs, sx, sy), x, sy + 7, 2),
        forall|y: int|
            sy <= y <= sy + 6 ==> #[trigger] names_cell(text_layout(glyphs, sx, sy), sx - 1, y, 2) && names_cell(
                text_layout(glyphs, sx, sy),
                sx + 6 * glyphs.len() - 1,
                y,
                2,
            ),
{
    let n = glyphs.len();
    let g = glyph_run(glyphs, sx, sy, n);
    lemma_glyph_run(glyphs, sx, sy, n);
    let bx0 = sx - 1;
    let bx1 = sx + 6 * n - 1;
    let by0 = sy - 1;
    let by1 = sy + 7;
    let span = (bx1 - bx0 + 1) as nat;
    let r0 = border_row(g, bx0, span, by0);
    let r1 = border_row(g, bx0, span, by1);
    let c0 = border_col(g, bx0, sy, 7);
    let c1 = border_col(g, bx1, sy, 7);
    let t = text_layout(glyphs, sx, sy);
    assert(t == g + r0 + r1 + c0 + c1);
    assert forall|x: int| sx - 1 <= x <= sx + 6 * n - 1 implies #[trigger] names_cell(t, x, sy - 1, 2) && names_cell(
        t,
        x,
        sy + 7,
        2,
    ) by {
        assert(!occupied(g, x, by0)) by {
            if occupied(g, x, by0) {
                let j = choose|j: int| 0 <= j < g.len() && #[trigger] g[j].x == x && g[j].y == by0;
                assert(g[j].y >= sy);
            }
        }
        assert(!occupied(g, x, by1)) by {
            if occupied(g, x, by1) {
                let j = choose|j: int| 0 <= j < g.len() && #[trigger] g[j].x == x && g[j].y == by1;
                assert(g[j].y <= sy + 6);
            }
        }
        lemma_border_row_covers(g, bx0, span, by0, x);
        lemma_border_row_covers(g, bx0, span, by1, x);
        lemma_names_concat(g, r0, x, by0, 2);
        lemma_names_concat(g + r0, r1, x, by0, 2);
        lemma_names_concat(g + r0 + r1, c0, x, by0, 2);
        lemma_names_concat(g + r0 + r1 + c0, c1, x, by0, 2);
        lemma_names_concat(g + r0, r1, x, by1, 2);
        lemma_names_concat(g + r0 + r1, c0, x, by1, 2);
        lemma_names_concat(g + r0 + r1 + c0, c1, x, by1, 2);
    }
    assert forall|y: int| sy <= y <= sy + 6 implies #[trigger] names_cell(t, sx - 1, y, 2) && names_cell(t, bx1, y, 2) by {
        assert(!occupied(g, bx0, y)) by {
            if occupied(g, bx0, y) {
                let j = choose|j: int| 0 <= j < g.len() && #[trigger] g[j].x == bx0 && g[j].y == y;
                assert(g[j].x >= sx);
            }
        }
        assert(!occupied(g, bx1, y)) by {
            if occupied(g, bx1, y) {
                let j = choose|j: int| 0 <= j < g.len() && #[trigger] g[j].x == bx1 && g[j].y == y;
                let e = g[j];
                assert((e.x - sx) % 6 < 5);
                assert(e.x - sx == 6 * n - 1);
                assert((6 * n - 1) % 6 == 5) by {
                    vstd::arithmetic::div_mod::lemma_fundamental_div_mod_converse(6 * n - 1, 6, n - 1, 5);
                }
            }
        }
        lemma_border_col_covers(g, bx0, sy, 7, y);
        lemma_border_col_covers(g, bx1, sy, 7, y);
        lemma_names_concat(g + r0 + r1, c0, bx0, y, 2);
        lemma_names_concat(g + r0 + r1 + c0, c1, bx0, y, 2);
        lemma_names_concat(g + r0 + r1 + c0, c1, bx1, y, 2);
    }
}

/// A glyph's cells before cell `k` (row-major) are named with their states.
proof fn lemma_glyph_cells_cover(g: [[Option<u8>; 5]; 7], x0: int, y0: int, k: nat, r: int, c: int, st: u8)
    requires
        0 <= r < 7,
        0 <= c < 5,
        r * 5 + c < k <= 35,
        g[r][c] == Some(st),
        0 <= x0,
        x0 + 4 <= usize::MAX,
        0 <= y0,
        y0 + 6 <= usize::MAX,
    ensures
        names_cell(glyph_cells(g, x0, y0, k), x0 + c, y0 + r, st),
    decreases k,
{
    let prev = glyph_cells(g, x0, y0, (k - 1) as nat);
    if r * 5 + c < k - 1 {
        lemma_glyph_cells_cover(g, x0, y0, (k - 1) as nat, r, c, st);
        let i = choose|i: int|
            0 <= i < prev.len() && (#[trigger] prev[i]).x == x0 + c && prev[i].y == y0 + r && prev[i].required_state == st;
        let cur = glyph_cells(g, x0, y0, k);
        match g[(k - 1) / 5][(k - 1) % 5] {
            Some(_) => {
                assert(cur[i] == prev[i]);
            },
            None => {},
        }
    } else {
        assert((k - 1) / 5 == r && (k - 1) % 5 == c);
        let cur = glyph_cells(g, x0, y0, k);
        assert(cur[prev.len() as int].x == x0 + c);
    }
}

/// Every stated cell of glyph `i < n` is named in the run of `n` glyphs.
proof fn lemma_glyph_run_cover(
    glyphs: Seq<[[Option<u8>; 5]; 7]>,
    sx: int,
    sy: int,
    n: nat,
    i: int,
    r: int,
    c: int,
    st: u8,
)
    requires
        0 <= i < n <= glyphs.len(),
        0 <= r < 7,
        0 <= c < 5,
        glyphs[i][r][c] == Some(st),
        0 <= sx,
        0 <= sy,
        sx + 6 * n <= usize::MAX,
        sy + 6 <= usize::MAX,
    ensures
        names_cell(glyph_run(glyphs, sx, sy, n), sx + 6 * i + c, sy + r, st),
    decreases n,
{
    let m = (n - 1) as nat;
    let prev = glyph_run(glyphs, sx, sy, m);
    let cells = glyph_cells(glyphs[m as int], sx + 6 * m, sy, 35);
    assert(glyph_run(glyphs, sx, sy, n) == prev + cells);
    if i < m {
        lemma_glyph_run_cover(glyphs, sx, sy, m, i, r, c, st);
        lemma_names_concat(prev, cells, sx + 6 * i + c, sy + r, st);
    } else {
        lemma_glyph_cells_cover(glyphs[m as int], sx + 6 * m, sy, 35, r, c, st);
        lemma_names_concat(prev, cells, sx + 6 * i + c, sy + r, st);
    }
}

/// Every cell that a glyph states is laid out with that state: glyph `i`
/// (counted from 0) sits with its top-left cell at `(sx + 6i, sy)`, so its
/// cell `(r, c)` holding `Some(s)` becomes a constraint of state `s` at
/// `(sx + 6i + c, sy + r)`.
pub proof fn law_text_glyphs_placed(glyphs: Seq<[[Option<u8>; 5]; 7]>, sx: int, sy: int)
    requires
        0 <= sx,
        0 <= sy,
        sx + 6 * glyphs.len() <= usize::MAX,
        sy + 8 <= usize::MAX,
    ensures
        forall|i: int, r: int, c: int|
            0 <= i < glyphs.len() && 0 <= r < 7 && 0 <= c < 5 && (#[trigger] glyphs[i][r][c]) is Some ==> names_cell(
                text_layout(glyphs, sx, sy),
                sx + 6 * i + c,
                sy + r,
                glyphs[i][r][c]->Some_0,
            ),
{
    let n = glyphs.len();
    let g = glyph_run(glyphs, sx, sy, n);
    assert forall|i: int, r: int, c: int|
        0 <= i < n && 0 <= r < 7 && 0 <= c < 5 && (#[trigger] glyphs[i][r][c]) is Some implies names_cell(
            text_layout(glyphs, sx, sy),
            sx + 6 * i + c,
            sy + r,
            glyphs[i][r][c]->Some_0,
        ) by {
        let st = glyphs[i][r][c]->Some_0;
        lemma_glyph_run_cover(glyphs, sx, sy, n, i, r, c, st);
        if n > 0 && sx > 0 && sy > 0 {
            let bx0 = sx - 1;
            let bx1 = sx + 6 * n - 1;
            let span = (bx1 - bx0 + 1) as nat;
            let rest = border_row(g, bx0, span, sy - 1) + border_row(g, bx0, span, sy + 7) + border_col(g, bx0, sy, 7)
                + border_col(g, bx1, sy, 7);
            lemma_names_concat(g, rest, sx + 6 * i + c, sy + r, st);
            assert(text_layout(glyphs, sx, sy) =~= g + rest);
        }
    }
}

} // verus!
