//! A 2D grid of alternating up-pointing (▲) and down-pointing (▽) triangles.
//!
//! Each triangle stores one trit value (0, 1, 2); the value 3 marks an erasure.
//! The triangle at `(col, row)` points up when `col + row` is even and down
//! when it is odd. Storage is row-major: `data[row * cols + col]`.
use vstd::prelude::*;

verus! {

/// A 2D grid of trit values stored in alternating triangles.
#[derive(Debug, Clone, PartialEq, Eq)]
pub struct TriGrid {
    /// Number of triangle rows.
    pub rows: usize,
    /// Number of triangles per row.
    pub cols: usize,
    /// Row-major storage: `data[row * cols + col]`.
    pub data: Vec<u8>,
}

/// Whether the triangle at `(col, row)` points up.
pub open spec fn spec_is_up(col: int, row: int) -> bool {
    (col + row) % 2 == 0
}

impl TriGrid {
    /// The storage holds exactly one value per cell.
    pub open spec fn wf(&self) -> bool {
        &&& self.data@.len() == self.rows * self.cols
        &&& self.rows * self.cols <= usize::MAX
    }

    /// The value stored for the cell `(col, row)`.
    pub open spec fn cell(&self, col: int, row: int) -> u8 {
        self.data@[row * self.cols + col]
    }

    /// Create a new grid filled with zeros.
    pub fn zeros(rows: usize, cols: usize) -> (g: Self)
        requires
            rows * cols <= usize::MAX,
        ensures
            g.rows == rows,
            g.cols == cols,
            g.wf(),
            forall|i: int| 0 <= i < g.data@.len() ==> g.data@[i] == 0,
    {
        TriGrid { rows, cols, data: vec![0u8; rows * cols] }
    }

    /// Get the trit value at `(col, row)`; `None` outside the grid.
    pub fn get(&self, col: usize, row: usize) -> (r: Option<u8>)
        requires
            self.wf(),
        ensures
            r == (if col < self.cols && row < self.rows {
                Some(self.cell(col as int, row as int))
            } else {
                None
            }),
    {
        if col < self.cols && row < self.rows {
            proof {
                lemma_cell_index(self.rows as int, self.cols as int, col as int, row as int);
            }
            Some(self.data[row * self.cols + col])
        } else {
            None
        }
    }

    /// Set the trit value at `(col, row)`. The cell must lie inside the grid.
    pub fn set(&mut self, col: usize, row: usize, val: u8)
        requires
            old(self).wf(),
            col < old(self).cols,
            row < old(self).rows,
        ensures
            final(self).rows == old(self).rows,
            final(self).cols == old(self).cols,
            final(self).data@ == old(self).data@.update(row * old(self).cols + col, val),
            final(self).wf(),
    {
        proof {
            lemma_cell_index(self.rows as int, self.cols as int, col as int, row as int);
        }
        let idx = row * self.cols + col;
        self.data.set(idx, val);
    }

    /// Returns `true` if the triangle at `(col, row)` points up (▲).
    pub fn is_up(col: usize, row: usize) -> (r: bool)
        ensures
            r == spec_is_up(col as int, row as int),
    {
        (col % 2 + row % 2) % 2 == 0
    }

    /// Total number of cells in the grid.
    pub fn total_cells(&self) -> (n: usize)
        requires
            self.wf(),
        ensures
            n == self.rows * self.cols,
    {
        self.data.len()
    }
}

/// A cell inside a `rows × cols` grid has a row-major index inside the storage.
pub proof fn lemma_cell_index(rows: int, cols: int, col: int, row: int)
    requires
        0 <= col < cols,
        0 <= row < rows,
    ensures
        0 <= row * cols + col < rows * cols,
{
    assert(row * cols + col < rows * cols) by (nonlinear_arith)
        requires
            0 <= col < cols,
            0 <= row < rows,
    ;
    assert(0 <= row * cols) by (nonlinear_arith)
        requires
            0 <= row,
            0 <= cols,
    ;
}

/// Setting a cell changes that cell only: reading it back gives the value
/// written, and every other cell keeps its value.
pub proof fn law_trigrid_set_get(g: TriGrid, col: int, row: int, v: u8, c2: int, r2: int)
    requires
        g.wf(),
        0 <= col < g.cols,
        0 <= row < g.rows,
        0 <= c2 < g.cols,
        0 <= r2 < g.rows,
    ensures
        g.data@.update(row * g.cols + col, v)[r2 * g.cols + c2] == (if c2 == col && r2 == row {
            v
        } else {
            g.cell(c2, r2)
        }),
{
    lemma_cell_index(g.rows as int, g.cols as int, col, row);
    lemma_cell_index(g.rows as int, g.cols as int, c2, r2);
    crate::modular::lemma_index_row_col(row, col, g.cols as int);
    crate::modular::lemma_index_row_col(r2, c2, g.cols as int);
}

} // verus!
