//! The library-wide laws, stated over the same spec functions that the
//! executable functions' contracts use.

use vstd::prelude::*;
use crate::cell::Cell;
use crate::search::{
    passable, search_spec, init_state, lemma_run_path_shape, Entry, entry_le, entry_lt,
    min_index, lemma_min_index,
};
use crate::grid::GridView;
use crate::control::{ControlState, TickInput, tick_spec};

verus! {

/// Determinism: for identical walls, start and end, repeated invocations
/// of the search engine yield identical paths and effort counts. The
/// engine's contract pins its result to `search_spec` of the inputs, so
/// any two results of equal inputs coincide.
pub proof fn lemma_search_deterministic(
    walls: Seq<bool>,
    rows: int,
    cols: int,
    start: Option<Cell>,
    end: Option<Cell>,
    r1: (Seq<Cell>, nat),
    r2: (Seq<Cell>, nat),
)
    requires
        r1 == search_spec(walls, rows, cols, start, end),
        r2 == search_spec(walls, rows, cols, start, end),
    ensures
        r1 == r2,
{
}

/// Degenerate case: with both endpoints present and equal, the path is
/// empty and no cell is expanded, regardless of walls.
pub proof fn lemma_same_endpoints_empty(walls: Seq<bool>, rows: int, cols: int, c: Cell)
    ensures
        search_spec(walls, rows, cols, Some(c), Some(c)) == (Seq::<Cell>::empty(), 0nat),
{
}

/// Blocked endpoint: when the start or end cell is itself a wall (or out
/// of bounds), the path is empty and no cell is expanded.
pub proof fn lemma_blocked_endpoint_empty(
    walls: Seq<bool>,
    rows: int,
    cols: int,
    s: Cell,
    e: Cell,
)
    requires
        !passable(walls, rows, cols, s) || !passable(walls, rows, cols, e),
    ensures
        search_spec(walls, rows, cols, Some(s), Some(e)) == (Seq::<Cell>::empty(), 0nat),
{
}

/// Absent endpoint: with either endpoint absent no path is defined.
pub proof fn lemma_absent_endpoint_empty(
    walls: Seq<bool>,
    rows: int,
    cols: int,
    start: Option<Cell>,
    end: Option<Cell>,
)
    requires
        start is None || end is None,
    ensures
        search_spec(walls, rows, cols, start, end) == (Seq::<Cell>::empty(), 0nat),
{
}

/// The route convention: whatever path the engine yields ends at the
/// end cell and never contains the start cell — the path excludes
/// `start` and includes `end`.
pub proof fn lemma_path_shape(
    walls: Seq<bool>,
    rows: int,
    cols: int,
    start: Option<Cell>,
    end: Option<Cell>,
)
    ensures
        ({
            let p = search_spec(walls, rows, cols, start, end).0;
            &&& (p.len() > 0 ==> end is Some && p[p.len() - 1] == end->0)
            &&& (start is Some ==> forall|k: int| 0 <= k < p.len() ==> p[k] != start->0)
        }),
{
    if start is Some && end is Some && start->0 != end->0 && passable(walls, rows, cols, start->0)
        && passable(walls, rows, cols, end->0) {
        lemma_run_path_shape(
            init_state(rows, cols, start->0, end->0),
            walls,
            rows,
            cols,
            start->0,
            end->0,
        );
    }
}

/// Tie-break determinism: when two frontier entries carry equal
/// f-scores, the frontier yields the one with the smaller row (then the
/// smaller column) first; the larger of the two is never the next entry
/// expanded.
pub proof fn lemma_tie_break(fr: Seq<Entry>, a: int, b: int)
    requires
        0 <= a < fr.len(),
        0 <= b < fr.len(),
        fr[a].fscore == fr[b].fscore,
        fr[a].cell.row < fr[b].cell.row || (fr[a].cell.row == fr[b].cell.row && fr[a].cell.col
            < fr[b].cell.col),
    ensures
        entry_le(fr[min_index(fr)], fr[a]),
        entry_lt(fr[min_index(fr)], fr[b]),
        fr[min_index(fr)] != fr[b],
{
    lemma_min_index(fr);
}

/// The idempotent recompute guard: while the mark-start key is held,
/// no button edge arrives and the pointer reports the same cell tick
/// after tick, at most the first tick recomputes; every later tick
/// leaves the session unchanged and does not invoke the engine.
pub proof fn lemma_recompute_guard(c: ControlState, g: GridView, i: TickInput)
    requires
        c == ControlState::Grid,
        !i.secondary_pressed,
        !i.primary_pressed,
        i.mark_start_held,
        !i.mark_end_held,
        i.pointer is Some,
    ensures
        ({
            let (c1, g1, r1) = tick_spec(c, g, i);
            let (c2, g2, r2) = tick_spec(c1, g1, i);
            &&& c2 == c1
            &&& g2 == g1
            &&& r2 == false
        }),
{
}

} // verus!
