//! Constraint masks, solver errors and the plain packing solver.
use vstd::prelude::*;
use crate::matrix::TritMatrix;

verus! {

/// A spatial constraint locking a specific cell to a required trit value.
#[derive(Debug, Clone, PartialEq, Eq)]
pub struct ConstraintMask {
    pub x: usize,
    pub y: usize,
    /// Required trit state: 0, 1, or 2.
    pub required_state: u8,
}

/// Why a grid could not be produced.
#[derive(Debug, Clone, PartialEq, Eq)]
pub enum SolverError {
    /// A constraint at `(x, y)` collides with a reserved cell.
    Conflict { x: usize, y: usize },
    /// The grid cannot hold the payload.
    MatrixTooSmall { size: usize, trits: usize },
    /// The visual constraints are too dense for the payload.
    Unsatisfiable,
    /// False anchor patterns kept appearing after re-packing.
    FalseAnchor { attempts: usize },
}

/// Generates a trit matrix that encodes a payload under spatial constraints.
pub trait MatrixSolver {
    /// Lay out `payload_trits` in a `matrix_size × matrix_size` matrix.
    fn resolve_matrix(
        payload_trits: &[u8],
        matrix_size: usize,
        constraints: &[ConstraintMask],
    ) -> Result<TritMatrix, SolverError>;
}

/// Packs the payload row by row into a square matrix, zero-fills the rest and
/// ignores the constraints.
pub struct MockSolver;

impl MatrixSolver for MockSolver {
    /// Row-by-row packing: trit `i` goes to `(i % size, i / size)`; the
    /// matrix is too small when the payload has more trits than cells (or
    /// when the cell count overflows `usize`).
    fn resolve_matrix(
        payload_trits: &[u8],
        matrix_size: usize,
        constraints: &[ConstraintMask],
    ) -> (r: Result<TritMatrix, SolverError>)
        ensures
            match r {
                Err(e) => {
                    &&& (matrix_size * matrix_size > usize::MAX || payload_trits@.len() > matrix_size
                        * matrix_size)
                    &&& e == SolverError::MatrixTooSmall { size: matrix_size, trits: payload_trits@.len() as usize }
                },
                Ok(m) => {
                    &&& matrix_size * matrix_size <= usize::MAX
                    &&& payload_trits@.len() <= matrix_size * matrix_size
                    &&& m.width == matrix_size
                    &&& m.height == matrix_size
                    &&& m.wf()
                    &&& forall|i: int|
                        0 <= i < m.data@.len() ==> #[trigger] m.data@[i] == (if i < payload_trits@.len() {
                            payload_trits@[i]
                        } else {
                            0u8
                        })
                },
            },
    {
        let capacity = match matrix_size.checked_mul(matrix_size) {
            Some(c) => c,
            None => {
                return Err(SolverError::MatrixTooSmall { size: matrix_size, trits: payload_trits.len() });
            },
        };
        if payload_trits.len() > capacity {
            return Err(SolverError::MatrixTooSmall { size: matrix_size, trits: payload_trits.len() });
        }
        let mut matrix = TritMatrix::zeros(matrix_size, matrix_size);
        let mut i: usize = 0;
        while i < payload_trits.len()
            invariant
                0 <= i <= payload_trits@.len() <= capacity,
                capacity == matrix_size * matrix_size,
                matrix.width == matrix_size,
                matrix.height == matrix_size,
                matrix.wf(),
                forall|k: int|
                    0 <= k < matrix.data@.len() ==> #[trigger] matrix.data@[k] == (if k < i {
                        payload_trits@[k]
                    } else {
                        0u8
                    }),
            decreases payload_trits@.len() - i,
        {
            let x = i % matrix_size;
            let y = i / matrix_size;
            proof {
                vstd::arithmetic::div_mod::lemma_fundamental_div_mod(i as int, matrix_size as int);
                assert(y * matrix_size + x == i) by (nonlinear_arith)
                    requires
                        i == matrix_size * (i / matrix_size) + i % matrix_size,
                        y == i / matrix_size,
                        x == i % matrix_size,
                ;
                assert(y < matrix_size) by (nonlinear_arith)
                    requires
                        y * matrix_size + x == i,
                        i < matrix_size * matrix_size,
                        0 <= x,
                ;
            }
            matrix.set(x, y, payload_trits[i]);
            i = i + 1;
        }
        Ok(matrix)
    }
}

} // verus!
