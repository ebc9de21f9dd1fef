use vstd::prelude::*;

verus! {

/// A grid coordinate: `row` in `[0, rows)`, `col` in `[0, cols)` for the
/// configured grid dimensions.
#[derive(Clone, Copy, PartialEq, Eq, Structural, Debug)]
pub struct Cell {
    pub row: usize,
    pub col: usize,
}

/// `c` lies within an `rows` x `cols` grid.
pub open spec fn cell_in_bounds(c: Cell, rows: int, cols: int) -> bool {
    c.row < rows && c.col < cols
}

/// Flat index of `c` in a row-major table with `cols` columns.
pub open spec fn cell_index(c: Cell, cols: int) -> int {
    c.row * cols + c.col
}

/// Manhattan distance between two cells: `|row1 - row2| + |col1 - col2|`.
pub open spec fn manhattan(a: Cell, b: Cell) -> int {
    (if a.row >= b.row {
        a.row - b.row
    } else {
        b.row - a.row
    }) + (if a.col >= b.col {
        a.col - b.col
    } else {
        b.col - a.col
    })
}

impl Cell {
    pub fn new(row: usize, col: usize) -> (c: Cell)
        ensures
            c.row == row,
            c.col == col,
    {
        Cell { row, col }
    }

    /// Manhattan distance, the heuristic of the search engine. Admissible
    /// and consistent for 4-directional unit-cost movement.
    pub fn distance(&self, other: &Cell) -> (d: usize)
        requires
            self.row + other.row + self.col + other.col <= usize::MAX,
        ensures
            d == manhattan(*self, *other),
    {
        let dr = if self.row >= other.row {
            self.row - other.row
        } else {
            other.row - self.row
        };
        let dc = if self.col >= other.col {
            self.col - other.col
        } else {
            other.col - self.col
        };
        dr + dc
    }
}

/// Flat index of an in-bounds cell; also shows the index fits in the table.
pub fn index_of(c: Cell, rows: usize, cols: usize) -> (i: usize)
    requires
        cell_in_bounds(c, rows as int, cols as int),
        rows * cols <= usize::MAX,
    ensures
        i == cell_index(c, cols as int),
        i < rows * cols,
{
    proof {
        assert(c.row * cols + c.col < rows * cols) by (nonlinear_arith)
            requires
                c.row < rows,
                c.col < cols,
        ;
    }
    c.row * cols + c.col
}

/// Equality on optional cells, usable where the contracts speak of `==`.
pub fn opt_cell_eq(a: Option<Cell>, b: Option<Cell>) -> (r: bool)
    ensures
        r == (a == b),
{
    match (a, b) {
        (Some(x), Some(y)) => x == y,
        (None, None) => true,
        _ => false,
    }
}

} // verus!
