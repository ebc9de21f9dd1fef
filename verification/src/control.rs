//! The interaction state machine: consumes the derived input events of
//! one tick, applies at most one transition and at most one grid
//! mutation, and invokes the search engine exactly when a mutation
//! changed the start cell, the end cell, or a wall.

use vstd::prelude::*;
use crate::cell::{Cell, cell_in_bounds, cell_index, opt_cell_eq};
use crate::grid::{Grid, GridView};
use crate::search::search_spec;

verus! {

/// The interaction states: idle over the grid, panning the camera, or
/// drawing walls with a captured paint value.
#[derive(Clone, Copy, PartialEq, Eq, Structural, Debug)]
pub enum ControlState {
    Grid,
    Panning,
    Drawing(bool),
}

/// The derived input events of one tick: the pointer-to-cell mapping
/// (absent when the pointer lies outside the grid viewport), edge events
/// of the primary and secondary pointer buttons, and the held state of
/// the mark-start and mark-end keys.
#[derive(Clone, Copy)]
pub struct TickInput {
    pub pointer: Option<Cell>,
    pub primary_pressed: bool,
    pub primary_released: bool,
    pub secondary_pressed: bool,
    pub secondary_released: bool,
    pub mark_start_held: bool,
    pub mark_end_held: bool,
}

/// What one tick does, as a function of the control state, the grid
/// model and the input events: the next control state, the next grid
/// model, and whether the search engine ran. The recompute-on-change
/// guard compares the old value before mutating, so a pointer lingering
/// over an already-correct cell triggers no redundant search.
pub open spec fn tick_spec(c: ControlState, g: GridView, i: TickInput) -> (
    ControlState,
    GridView,
    bool,
) {
    match c {
        ControlState::Grid => {
            if i.secondary_pressed {
                (ControlState::Panning, g, false)
            } else if i.primary_pressed && i.pointer is Some {
                let p = i.pointer->0;
                (ControlState::Drawing(!g.walls[cell_index(p, g.cols)]), g, false)
            } else if i.mark_start_held && i.pointer is Some && i.pointer != g.start {
                let g1 = GridView { start: i.pointer, ..g };
                let r = search_spec(g1.walls, g1.rows, g1.cols, g1.start, g1.end);
                (
                    ControlState::Grid,
                    GridView { path: r.0, search_effort: r.1, ..g1 },
                    true,
                )
            } else if i.mark_end_held && i.pointer is Some && i.pointer != g.end {
                let g1 = GridView { end: i.pointer, ..g };
                let r = search_spec(g1.walls, g1.rows, g1.cols, g1.start, g1.end);
                (
                    ControlState::Grid,
                    GridView { path: r.0, search_effort: r.1, ..g1 },
                    true,
                )
            } else {
                (ControlState::Grid, g, false)
            }
        },
        ControlState::Panning => {
            if i.secondary_released {
                (ControlState::Grid, g, false)
            } else {
                (ControlState::Panning, g, false)
            }
        },
        ControlState::Drawing(v) => {
            if i.primary_released {
                (ControlState::Grid, g, false)
            } else if i.pointer is Some && g.walls[cell_index(i.pointer->0, g.cols)] != v {
                let g1 = GridView {
                    walls: g.walls.update(cell_index(i.pointer->0, g.cols), v),
                    ..g
                };
                let r = search_spec(g1.walls, g1.rows, g1.cols, g1.start, g1.end);
                (
                    ControlState::Drawing(v),
                    GridView { path: r.0, search_effort: r.1, ..g1 },
                    true,
                )
            } else {
                (ControlState::Drawing(v), g, false)
            }
        },
    }
}

/// The interactive session: the grid model plus the control state.
pub struct Session {
    grid: Grid,
    control: ControlState,
}

impl Session {
    pub closed spec fn wf(&self) -> bool {
        self.grid.wf()
    }

    pub closed spec fn control_spec(&self) -> ControlState {
        self.control
    }

    pub closed spec fn grid_spec(&self) -> GridView {
        self.grid@
    }

    /// A fresh session: an open grid, absent endpoints, idle state.
    pub fn new(rows: usize, cols: usize) -> (s: Session)
        requires
            1 <= rows,
            1 <= cols,
            rows * cols + rows + cols <= usize::MAX,
        ensures
            s.wf(),
            s.control_spec() == ControlState::Grid,
            s.grid_spec().rows == rows,
            s.grid_spec().cols == cols,
            s.grid_spec().walls.len() == rows * cols,
            forall|i: int| 0 <= i < rows * cols ==> !(#[trigger] s.grid_spec().walls[i]),
            s.grid_spec().start is None,
            s.grid_spec().end is None,
            s.grid_spec().path == Seq::<Cell>::empty(),
            s.grid_spec().search_effort == 0,
    {
        Session { grid: Grid::new(rows, cols), control: ControlState::Grid }
    }

    /// Read-only view of the grid model.
    pub fn grid(&self) -> (g: &Grid)
        requires
            self.wf(),
        ensures
            g@ == self.grid_spec(),
            g.wf(),
    {
        &self.grid
    }

    pub fn control_state(&self) -> (c: ControlState)
        ensures
            c == self.control_spec(),
    {
        self.control
    }

    /// One logical tick: applies the state machine to the input events.
    /// Returns whether the search engine ran; it runs exactly when this
    /// tick changed the start cell, the end cell, or a wall.
    pub fn tick(&mut self, input: TickInput) -> (recomputed: bool)
        requires
            old(self).wf(),
            input.pointer is Some ==> cell_in_bounds(
                input.pointer->0,
                old(self).grid_spec().rows,
                old(self).grid_spec().cols,
            ),
        ensures
            final(self).wf(),
            (final(self).control_spec(), final(self).grid_spec(), recomputed) == tick_spec(
                old(self).control_spec(),
                old(self).grid_spec(),
                input,
            ),
    {
        match self.control {
            ControlState::Grid => {
                if input.secondary_pressed {
                    self.control = ControlState::Panning;
                    false
                } else if input.primary_pressed && input.pointer.is_some() {
                    let p = input.pointer.unwrap();
                    let w = self.grid.wall_at(p);
                    self.control = ControlState::Drawing(!w);
                    false
                } else if input.mark_start_held && input.pointer.is_some() && !opt_cell_eq(
                    input.pointer,
                    self.grid.start(),
                ) {
                    let ghost g0 = self.grid@;
                    self.grid.set_start(input.pointer);
                    self.grid.recompute();
                    proof {
                        let g1 = GridView { start: input.pointer, ..g0 };
                        let r = search_spec(g1.walls, g1.rows, g1.cols, g1.start, g1.end);
                        assert(self.grid@ =~= (GridView {
                            path: r.0,
                            search_effort: r.1,
                            ..g1
                        }));
                    }
                    true
                } else if input.mark_end_held && input.pointer.is_some() && !opt_cell_eq(
                    input.pointer,
                    self.grid.end(),
                ) {
                    let ghost g0 = self.grid@;
                    self.grid.set_end(input.pointer);
                    self.grid.recompute();
                    proof {
                        let g1 = GridView { end: input.pointer, ..g0 };
                        let r = search_spec(g1.walls, g1.rows, g1.cols, g1.start, g1.end);
                        assert(self.grid@ =~= (GridView {
                            path: r.0,
                            search_effort: r.1,
                            ..g1
                        }));
                    }
                    true
                } else {
                    false
                }
            },
            ControlState::Panning => {
                if input.secondary_released {
                    self.control = ControlState::Grid;
                }
                false
            },
            ControlState::Drawing(v) => {
                if input.primary_released {
                    self.control = ControlState::Grid;
                    false
                } else {
                    match input.pointer {
                        Some(p) => {
                            let w = self.grid.wall_at(p);
                            if w != v {
                                let ghost g0 = self.grid@;
                                self.grid.set_wall(p, v);
                                self.grid.recompute();
                                proof {
                                    let g1 = GridView {
                                        walls: g0.walls.update(cell_index(p, g0.cols), v),
                                        ..g0
                                    };
                                    let r = search_spec(
                                        g1.walls,
                                        g1.rows,
                                        g1.cols,
                                        g1.start,
                                        g1.end,
                                    );
                                    assert(self.grid@ =~= (GridView {
                                        path: r.0,
                                        search_effort: r.1,
                                        ..g1
                                    }));
                                }
                                true
                            } else {
                                false
                            }
                        },
                        None => false,
                    }
                }
            },
        }
    }
}

} // verus!
