//! A rectangular grid of trits.
use vstd::prelude::*;

verus! {

/// A 2D grid of trit values (0, 1, 2); the value 3 marks an erasure.
#[derive(Debug, Clone, PartialEq, Eq)]
pub struct TritMatrix {
    pub width: usize,
    pub height: usize,
    /// Row-major data: `data[y * width + x]`.
    pub data: Vec<u8>,
}

impl TritMatrix {
    /// The storage holds exactly one value per cell.
    pub open spec fn wf(&self) -> bool {
        &&& self.data@.len() == self.width * self.height
        &&& self.width * self.height <= usize::MAX
    }

    /// The value stored for cell `(x, y)`.
    pub open spec fn cell(&self, x: int, y: int) -> u8 {
        self.data@[y * self.width + x]
    }

    /// Create a new matrix filled with zeros.
    pub fn zeros(width: usize, height: usize) -> (m: Self)
        requires
            width * height <= usize::MAX,
        ensures
            m.width == width,
            m.height == height,
            m.wf(),
            forall|i: int| 0 <= i < m.data@.len() ==> m.data@[i] == 0,
    {
        TritMatrix { width, height, data: vec![0u8; width * height] }
    }

    /// Get the trit at `(x, y)`; `None` outside the matrix.
    pub fn get(&self, x: usize, y: usize) -> (r: Option<u8>)
        requires
            self.wf(),
        ensures
            r == (if x < self.width && y < self.height {
                Some(self.cell(x as int, y as int))
            } else {
                None
            }),
    {
        if x < self.width && y < self.height {
            proof {
                crate::trigrid::lemma_cell_index(self.height as int, self.width as int, x as int, y as int);
                assert(self.height * self.width == self.width * self.height) by (nonlinear_arith);
            }
            Some(self.data[y * self.width + x])
        } else {
            None
        }
    }

    /// Set the trit at `(x, y)`; positions outside the matrix are ignored.
    pub fn set(&mut self, x: usize, y: usize, val: u8)
        requires
            old(self).wf(),
        ensures
            final(self).width == old(self).width,
            final(self).height == old(self).height,
            final(self).wf(),
            final(self).data@ == (if x < old(self).width && y < old(self).height {
                old(self).data@.update(y * old(self).width + x, val)
            } else {
                old(self).data@
            }),
    {
        if x < self.width && y < self.height {
            proof {
                crate::trigrid::lemma_cell_index(self.height as int, self.width as int, x as int, y as int);
                assert(self.height * self.width == self.width * self.height) by (nonlinear_arith);
            }
            let idx = y * self.width + x;
            self.data.set(idx, val);
        }
    }
}

} // verus!
