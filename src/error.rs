//! The ways an operation of the library can fail.
use vstd::prelude::*;

verus! {

/// Why a grid operation, or a coordinated run, was refused.
#[derive(Debug, Clone, Copy, PartialEq, Eq, Structural)]
pub enum GridError {
    /// A grid with no rows or no columns, or too large to index.
    InvalidDimensions,
    /// A pattern placed partly outside the grid.
    InvalidSeedPosition,
    /// A row whose length is not the grid's width with its border.
    InvalidRowLength,
    /// More bands asked for than the grid has rows.
    InsufficientRows,
    /// Nothing to merge.
    EmptyPartList,
    /// Parts of different widths.
    ColumnMismatch,
    /// A worker stopped before handing back its band.
    WorkerFailure,
}

} // verus!
