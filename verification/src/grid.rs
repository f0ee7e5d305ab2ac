//! The renderable unit handed to an external renderer: a live cell's
//! column and row together with the grid's total columns and rows, so
//! that the renderer can map the cell onto a normalized canvas.

use vstd::prelude::*;

verus! {

/// One live cell, ready for rendering: `col` is `(column, total_columns)`
/// and `row` is `(row, total_rows)`.
#[derive(Debug, Clone, Copy, PartialEq, Eq, Hash)]
pub struct Square {
    pub col: (u32, u32),
    pub row: (u32, u32),
}

impl Square {
    pub fn new(col: u32, cols: u32, row: u32, rows: u32) -> (sq: Square)
        ensures
            sq == (Square { col: (col, cols), row: (row, rows) }),
    {
        Square { col: (col, cols), row: (row, rows) }
    }
}

} // verus!
