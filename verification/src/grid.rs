//! The grid model: the boolean obstacle mask, the optional start and end
//! cells, and the route and effort statistic of the last recomputation.
//! The mask is mutable only through explicit wall-set operations; the
//! stored path is consistent with the mask and endpoints as of the last
//! recomputation.

use vstd::prelude::*;
use crate::cell::{Cell, cell_in_bounds, cell_index};
use crate::search::{passable, passable_at, search, search_spec};

verus! {

/// The mathematical content of the grid model.
#[verifier::ext_equal]
pub struct GridView {
    pub rows: int,
    pub cols: int,
    pub walls: Seq<bool>,
    pub start: Option<Cell>,
    pub end: Option<Cell>,
    pub path: Seq<Cell>,
    pub search_effort: nat,
}

/// The grid model. `walls` is row-major with `cols` columns; `true`
/// means impassable.
pub struct Grid {
    rows: usize,
    cols: usize,
    walls: Vec<bool>,
    start: Option<Cell>,
    end: Option<Cell>,
    path: Vec<Cell>,
    search_effort: u64,
}

impl View for Grid {
    type V = GridView;

    closed spec fn view(&self) -> GridView {
        GridView {
            rows: self.rows as int,
            cols: self.cols as int,
            walls: self.walls@,
            start: self.start,
            end: self.end,
            path: self.path@,
            search_effort: self.search_effort as nat,
        }
    }
}

impl Grid {
    /// Well-formedness: positive dimensions whose scores fit the
    /// machine, a mask of exactly `rows * cols` cells, and no
    /// out-of-bounds cell in the endpoints or the stored path.
    pub closed spec fn wf(&self) -> bool {
        &&& self.rows >= 1
        &&& self.cols >= 1
        &&& self.rows * self.cols + self.rows + self.cols <= usize::MAX
        &&& self.walls@.len() == self.rows * self.cols
        &&& (self.start is Some ==> cell_in_bounds(
            self.start->0,
            self.rows as int,
            self.cols as int,
        ))
        &&& (self.end is Some ==> cell_in_bounds(
            self.end->0,
            self.rows as int,
            self.cols as int,
        ))
        &&& forall|k: int|
            0 <= k < self.path@.len() ==> cell_in_bounds(
                #[trigger] self.path@[k],
                self.rows as int,
                self.cols as int,
            )
    }

    /// A fresh grid: every cell open, endpoints absent, empty path.
    pub fn new(rows: usize, cols: usize) -> (g: Grid)
        requires
            1 <= rows,
            1 <= cols,
            rows * cols + rows + cols <= usize::MAX,
        ensures
            g.wf(),
            g@.rows == rows,
            g@.cols == cols,
            g@.walls.len() == rows * cols,
            forall|i: int| 0 <= i < rows * cols ==> !(#[trigger] g@.walls[i]),
            g@.start is None,
            g@.end is None,
            g@.path == Seq::<Cell>::empty(),
            g@.search_effort == 0,
    {
        let rc = rows * cols;
        let mut walls: Vec<bool> = Vec::new();
        let mut i: usize = 0;
        while i < rc
            invariant
                i <= rc,
                walls@.len() == i as int,
                forall|j: int| 0 <= j < i ==> !(#[trigger] walls@[j]),
            decreases rc - i,
        {
            walls.push(false);
            i = i + 1;
        }
        Grid {
            rows,
            cols,
            walls,
            start: None,
            end: None,
            path: Vec::new(),
            search_effort: 0,
        }
    }

    pub fn rows(&self) -> (r: usize)
        ensures
            r as int == self@.rows,
    {
        self.rows
    }

    pub fn cols(&self) -> (r: usize)
        ensures
            r as int == self@.cols,
    {
        self.cols
    }

    pub fn start(&self) -> (r: Option<Cell>)
        ensures
            r == self@.start,
    {
        self.start
    }

    pub fn end(&self) -> (r: Option<Cell>)
        ensures
            r == self@.end,
    {
        self.end
    }

    /// The route computed by the last recomputation, from `start` to
    /// `end`, excluding `start` and including `end`.
    pub fn path(&self) -> (r: &Vec<Cell>)
        ensures
            r@ == self@.path,
    {
        &self.path
    }

    /// Count of cells finalized during the last recomputation.
    pub fn search_effort(&self) -> (r: u64)
        ensures
            r as nat == self@.search_effort,
    {
        self.search_effort
    }

    /// Whether `c` is marked as a wall; `c` must be within bounds.
    pub fn wall_at(&self, c: Cell) -> (r: bool)
        requires
            self.wf(),
            cell_in_bounds(c, self@.rows, self@.cols),
        ensures
            r == self@.walls[cell_index(c, self@.cols)],
    {
        let i = crate::cell::index_of(c, self.rows, self.cols);
        self.walls[i]
    }

    /// The passability oracle: within bounds and not a wall.
    pub fn is_passable(&self, c: Cell) -> (r: bool)
        requires
            self.wf(),
        ensures
            r == passable(self@.walls, self@.rows, self@.cols, c),
    {
        passable_at(&self.walls, self.rows, self.cols, c)
    }

    /// Sets the wall flag of an in-bounds cell; everything else is
    /// untouched. Does not recompute the path.
    pub fn set_wall(&mut self, c: Cell, v: bool)
        requires
            old(self).wf(),
            cell_in_bounds(c, old(self)@.rows, old(self)@.cols),
        ensures
            final(self).wf(),
            final(self)@.walls == old(self)@.walls.update(
                cell_index(c, old(self)@.cols),
                v,
            ),
            final(self)@.rows == old(self)@.rows,
            final(self)@.cols == old(self)@.cols,
            final(self)@.start == old(self)@.start,
            final(self)@.end == old(self)@.end,
            final(self)@.path == old(self)@.path,
            final(self)@.search_effort == old(self)@.search_effort,
    {
        let i = crate::cell::index_of(c, self.rows, self.cols);
        self.walls[i] = v;
    }

    /// Sets the start cell; an absent or in-bounds value only. Does not
    /// recompute the path.
    pub fn set_start(&mut self, p: Option<Cell>)
        requires
            old(self).wf(),
            p is Some ==> cell_in_bounds(p->0, old(self)@.rows, old(self)@.cols),
        ensures
            final(self).wf(),
            final(self)@ == (GridView { start: p, ..old(self)@ }),
    {
        self.start = p;
    }

    /// Sets the end cell; an absent or in-bounds value only. Does not
    /// recompute the path.
    pub fn set_end(&mut self, p: Option<Cell>)
        requires
            old(self).wf(),
            p is Some ==> cell_in_bounds(p->0, old(self)@.rows, old(self)@.cols),
        ensures
            final(self).wf(),
            final(self)@ == (GridView { end: p, ..old(self)@ }),
    {
        self.end = p;
    }

    /// Runs the search engine on the current mask and endpoints without
    /// storing the result.
    pub fn search(&self) -> (r: (Vec<Cell>, u64))
        requires
            self.wf(),
        ensures
            (r.0@, r.1 as nat) == search_spec(
                self@.walls,
                self@.rows,
                self@.cols,
                self@.start,
                self@.end,
            ),
            r.1 as int <= self@.rows * self@.cols,
            forall|k: int|
                0 <= k < r.0@.len() ==> cell_in_bounds(#[trigger] r.0@[k], self@.rows, self@.cols),
    {
        search(&self.walls, self.rows, self.cols, self.start, self.end)
    }

    /// Recomputes the path and effort statistic from scratch for the
    /// current mask and endpoints; nothing else changes. When `start`
    /// and `end` coincide, or either is absent or impassable, the stored
    /// path becomes empty and the effort zero.
    pub fn recompute(&mut self)
        requires
            old(self).wf(),
        ensures
            final(self).wf(),
            final(self)@.rows == old(self)@.rows,
            final(self)@.cols == old(self)@.cols,
            final(self)@.walls == old(self)@.walls,
            final(self)@.start == old(self)@.start,
            final(self)@.end == old(self)@.end,
            (final(self)@.path, final(self)@.search_effort) == search_spec(
                old(self)@.walls,
                old(self)@.rows,
                old(self)@.cols,
                old(self)@.start,
                old(self)@.end,
            ),
            final(self)@.search_effort <= old(self)@.rows * old(self)@.cols,
            old(self)@.start is Some && old(self)@.start == old(self)@.end
                ==> final(self)@.path == Seq::<Cell>::empty() && final(self)@.search_effort
                == 0,
    {
        let (path, effort) = search(&self.walls, self.rows, self.cols, self.start, self.end);
        self.path = path;
        self.search_effort = effort;
    }
}

} // verus!
