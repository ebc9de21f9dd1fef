//! The A* search engine: a shortest-path search over a boolean obstacle
//! mask with Manhattan-distance heuristic, deterministic tie-breaking
//! (ascending f-score, then ascending row, then ascending column), and a
//! fixed expansion order (up, down, right, left).
//!
//! The executable search is proved equal to a mathematical model
//! (`search_spec`), so for identical inputs repeated invocations yield
//! identical paths and effort counts.

use vstd::prelude::*;
use crate::cell::{Cell, cell_in_bounds, cell_index, manhattan, index_of};

verus! {

/// A transient frontier entry: a cell plus its f-score.
#[derive(Clone, Copy)]
pub struct Entry {
    pub cell: Cell,
    pub fscore: usize,
}

/// A cell is passable when it is within bounds and not a wall.
/// `walls` is row-major with `cols` columns.
pub open spec fn passable(walls: Seq<bool>, rows: int, cols: int, c: Cell) -> bool {
    &&& cell_in_bounds(c, rows, cols)
    &&& 0 <= cell_index(c, cols) < walls.len()
    &&& !walls[cell_index(c, cols)]
}

/// Strict priority order on frontier entries: ascending f-score, ties
/// broken by ascending row, then ascending column.
pub open spec fn entry_lt(a: Entry, b: Entry) -> bool {
    ||| a.fscore < b.fscore
    ||| (a.fscore == b.fscore && a.cell.row < b.cell.row)
    ||| (a.fscore == b.fscore && a.cell.row == b.cell.row && a.cell.col < b.cell.col)
}

pub open spec fn entry_le(a: Entry, b: Entry) -> bool {
    ||| entry_lt(a, b)
    ||| (a.fscore == b.fscore && a.cell.row == b.cell.row && a.cell.col == b.cell.col)
}

/// Index of the first entry that is minimal under `entry_le`: the entry
/// the frontier yields next.
pub open spec fn min_index(s: Seq<Entry>) -> int
    decreases s.len(),
{
    if s.len() <= 1 {
        0
    } else {
        let m = min_index(s.drop_last());
        if entry_le(s[m], s.last()) {
            m
        } else {
            s.len() - 1
        }
    }
}

pub proof fn lemma_min_index(s: Seq<Entry>)
    requires
        s.len() > 0,
    ensures
        0 <= min_index(s) < s.len(),
        forall|j: int| 0 <= j < s.len() ==> entry_le(s[min_index(s)], #[trigger] s[j]),
    decreases s.len(),
{
    if s.len() > 1 {
        lemma_min_index(s.drop_last());
        assert forall|j: int| 0 <= j < s.len() implies entry_le(s[min_index(s)], s[j]) by {
            if j < s.len() - 1 {
                assert(s.drop_last()[j] == s[j]);
                assert(s.drop_last()[min_index(s.drop_last())] == s[min_index(s.drop_last())]);
            }
        }
    }
}

/// Number of cells whose g-score is still unknown.
pub open spec fn count_unknown(g: Seq<Option<usize>>) -> nat
    decreases g.len(),
{
    if g.len() == 0 {
        0
    } else {
        (if g[0] is None {
            1nat
        } else {
            0nat
        }) + count_unknown(g.drop_first())
    }
}

proof fn lemma_count_unknown_fill(g: Seq<Option<usize>>, i: int, v: usize)
    requires
        0 <= i < g.len(),
        g[i] is None,
    ensures
        count_unknown(g.update(i, Some(v))) + 1 == count_unknown(g),
    decreases g.len(),
{
    if i == 0 {
        assert(g.update(0, Some(v)).drop_first() =~= g.drop_first());
    } else {
        assert(g.update(i, Some(v)).drop_first() =~= g.drop_first().update(i - 1, Some(v)));
        lemma_count_unknown_fill(g.drop_first(), i - 1, v);
    }
}

/// Number of cells already finalized.
pub open spec fn count_done(visited: Seq<bool>) -> nat
    decreases visited.len(),
{
    if visited.len() == 0 {
        0
    } else {
        (if visited[0] {
            1nat
        } else {
            0nat
        }) + count_done(visited.drop_first())
    }
}

proof fn lemma_count_done_le_len(visited: Seq<bool>)
    ensures
        count_done(visited) <= visited.len(),
    decreases visited.len(),
{
    if visited.len() > 0 {
        lemma_count_done_le_len(visited.drop_first());
    }
}

proof fn lemma_count_done_mark(visited: Seq<bool>, i: int)
    requires
        0 <= i < visited.len(),
        !visited[i],
    ensures
        count_done(visited.update(i, true)) == count_done(visited) + 1,
    decreases visited.len(),
{
    if i == 0 {
        assert(visited.update(0, true).drop_first() =~= visited.drop_first());
    } else {
        assert(visited.update(i, true).drop_first() =~= visited.drop_first().update(i - 1, true));
        lemma_count_done_mark(visited.drop_first(), i - 1);
    }
}

/// The transient per-invocation state of the search engine: g-score,
/// parent and finalized tables (row-major), the frontier, and the count
/// of finalized cells.
#[verifier::ext_equal]
pub struct SearchState {
    pub g: Seq<Option<usize>>,
    pub parent: Seq<Option<Cell>>,
    pub visited: Seq<bool>,
    pub frontier: Seq<Entry>,
    pub effort: nat,
}

/// Termination measure: each step removes one frontier entry and every
/// push pairs with a cell leaving the unknown set.
pub open spec fn step_measure(s: SearchState) -> nat {
    s.frontier.len() + 2 * count_unknown(s.g)
}

/// Relaxation of the neighbor `(nr, nc)` of `curr`: the first time a
/// passable cell is reached, it obtains its parent and g-score and enters
/// the frontier; afterwards it is never relaxed again.
pub open spec fn relax(
    s: SearchState,
    walls: Seq<bool>,
    rows: int,
    cols: int,
    end: Cell,
    curr: Cell,
    nr: int,
    nc: int,
) -> SearchState {
    let i = nr * cols + nc;
    let ci = cell_index(curr, cols);
    if 0 <= nr < rows && 0 <= nc < cols && 0 <= i < walls.len() && !walls[i] && i < s.g.len()
        && s.g[i] is None && i < s.parent.len() && 0 <= ci < s.g.len() && s.g[ci] is Some {
        let n = Cell { row: nr as usize, col: nc as usize };
        let gval = (s.g[ci]->0 + 1) as usize;
        SearchState {
            g: s.g.update(i, Some(gval)),
            parent: s.parent.update(i, Some(curr)),
            frontier: s.frontier.push(
                Entry { cell: n, fscore: (gval + manhattan(n, end)) as usize },
            ),
            ..s
        }
    } else {
        s
    }
}

proof fn lemma_relax_measure(
    s: SearchState,
    walls: Seq<bool>,
    rows: int,
    cols: int,
    end: Cell,
    curr: Cell,
    nr: int,
    nc: int,
)
    ensures
        step_measure(relax(s, walls, rows, cols, end, curr, nr, nc)) <= step_measure(s),
{
    let i = nr * cols + nc;
    let ci = cell_index(curr, cols);
    if 0 <= nr < rows && 0 <= nc < cols && 0 <= i < walls.len() && !walls[i] && i < s.g.len()
        && s.g[i] is None && i < s.parent.len() && 0 <= ci < s.g.len() && s.g[ci] is Some {
        let gval = (s.g[ci]->0 + 1) as usize;
        lemma_count_unknown_fill(s.g, i, gval);
    }
}

/// Expansion of a popped cell: the four axis-aligned neighbors in the
/// fixed order up, down, right, left.
pub open spec fn expand(
    s: SearchState,
    walls: Seq<bool>,
    rows: int,
    cols: int,
    end: Cell,
    curr: Cell,
) -> SearchState {
    let r = curr.row as int;
    let c = curr.col as int;
    let s1 = relax(s, walls, rows, cols, end, curr, r - 1, c);
    let s2 = relax(s1, walls, rows, cols, end, curr, r + 1, c);
    let s3 = relax(s2, walls, rows, cols, end, curr, r, c + 1);
    relax(s3, walls, rows, cols, end, curr, r, c - 1)
}

pub proof fn lemma_expand_measure(
    s: SearchState,
    walls: Seq<bool>,
    rows: int,
    cols: int,
    end: Cell,
    curr: Cell,
)
    ensures
        step_measure(expand(s, walls, rows, cols, end, curr)) <= step_measure(s),
{
    let r = curr.row as int;
    let c = curr.col as int;
    let s1 = relax(s, walls, rows, cols, end, curr, r - 1, c);
    let s2 = relax(s1, walls, rows, cols, end, curr, r + 1, c);
    let s3 = relax(s2, walls, rows, cols, end, curr, r, c + 1);
    lemma_relax_measure(s, walls, rows, cols, end, curr, r - 1, c);
    lemma_relax_measure(s1, walls, rows, cols, end, curr, r + 1, c);
    lemma_relax_measure(s2, walls, rows, cols, end, curr, r, c + 1);
    lemma_relax_measure(s3, walls, rows, cols, end, curr, r, c - 1);
}

/// The route recovered by following parent links backward from `p` to
/// `start`, in start-to-end order, excluding `start` itself. The fuel
/// bounds the walk; a run of the engine never exhausts it.
pub open spec fn reconstruct(
    parent: Seq<Option<Cell>>,
    cols: int,
    start: Cell,
    p: Cell,
    fuel: nat,
) -> Seq<Cell>
    decreases fuel,
{
    if p == start || fuel == 0 {
        Seq::empty()
    } else {
        let i = cell_index(p, cols);
        if 0 <= i < parent.len() && parent[i] is Some {
            reconstruct(parent, cols, start, parent[i]->0, (fuel - 1) as nat).push(p)
        } else {
            Seq::empty()
        }
    }
}

/// One full run of the engine from state `s` to quiescence: pop the
/// minimal entry, skip it if already finalized, stop at `end` with the
/// reconstructed path, otherwise expand and continue. Returns the path
/// and the count of cells finalized.
pub open spec fn run(
    s: SearchState,
    walls: Seq<bool>,
    rows: int,
    cols: int,
    start: Cell,
    end: Cell,
) -> (Seq<Cell>, nat)
    decreases step_measure(s),
{
    if s.frontier.len() == 0 {
        (Seq::empty(), s.effort)
    } else {
        let m = min_index(s.frontier);
        let e = s.frontier[m];
        let s1 = SearchState { frontier: s.frontier.remove(m), ..s };
        let i = cell_index(e.cell, cols);
        if !(0 <= i < s1.visited.len()) || s1.visited[i] {
            proof {
                lemma_min_index(s.frontier);
            }
            run(s1, walls, rows, cols, start, end)
        } else {
            let s2 = SearchState {
                visited: s1.visited.update(i, true),
                effort: s1.effort + 1,
                ..s1
            };
            if e.cell == end {
                (reconstruct(s2.parent, cols, start, end, (rows * cols) as nat), s2.effort)
            } else {
                proof {
                    lemma_min_index(s.frontier);
                    lemma_expand_measure(s2, walls, rows, cols, end, e.cell);
                }
                run(expand(s2, walls, rows, cols, end, e.cell), walls, rows, cols, start, end)
            }
        }
    }
}

/// The seeded state: `start` has g-score 0 and sits alone in the
/// frontier; everything else is unknown.
pub open spec fn init_state(rows: int, cols: int, start: Cell, end: Cell) -> SearchState {
    SearchState {
        g: Seq::new(
            (rows * cols) as nat,
            |i: int|
                if i == cell_index(start, cols) {
                    Some(0usize)
                } else {
                    None
                },
        ),
        parent: Seq::new((rows * cols) as nat, |i: int| None),
        visited: Seq::new((rows * cols) as nat, |i: int| false),
        frontier: seq![Entry { cell: start, fscore: manhattan(start, end) as usize }],
        effort: 0,
    }
}

/// Every frontier entry holds an in-bounds cell that has been reached.
pub open spec fn frontier_ok(s: SearchState, rows: int, cols: int) -> bool {
    forall|k: int|
        0 <= k < s.frontier.len() ==> {
            let e = #[trigger] s.frontier[k];
            &&& cell_in_bounds(e.cell, rows, cols)
            &&& 0 <= cell_index(e.cell, cols) < s.g.len()
            &&& s.g[cell_index(e.cell, cols)] is Some
        }
}

/// Known g-scores stay below the number of reached cells.
pub open spec fn gscores_ok(g: Seq<Option<usize>>, rc: int) -> bool {
    forall|i: int|
        0 <= i < g.len() && (#[trigger] g[i]) is Some ==> g[i]->0 + count_unknown(g) < rc
}

/// Parent links step back exactly one g-score layer, and every reached
/// cell except the start has one.
pub open spec fn parents_ok(
    g: Seq<Option<usize>>,
    parent: Seq<Option<Cell>>,
    rows: int,
    cols: int,
    start: Cell,
) -> bool {
    &&& forall|i: int|
        0 <= i < parent.len() && (#[trigger] parent[i]) is Some ==> {
            let q = parent[i]->0;
            &&& i < g.len() && g[i] is Some
            &&& cell_in_bounds(q, rows, cols)
            &&& 0 <= cell_index(q, cols) < g.len()
            &&& g[cell_index(q, cols)] is Some
            &&& g[cell_index(q, cols)]->0 + 1 == g[i]->0
        }
    &&& forall|i: int|
        0 <= i < g.len() && i != cell_index(start, cols) && (#[trigger] g[i]) is Some ==> (i
            < parent.len() && parent[i] is Some)
}

/// Well-formedness of the whole transient state during one invocation.
pub open spec fn tables_ok(
    s: SearchState,
    walls: Seq<bool>,
    rows: int,
    cols: int,
    start: Cell,
) -> bool {
    let rc = rows * cols;
    let si = cell_index(start, cols);
    &&& rows >= 1 && cols >= 1
    &&& rc + rows + cols <= usize::MAX
    &&& s.g.len() == rc
    &&& s.parent.len() == rc
    &&& s.visited.len() == rc
    &&& walls.len() == rc
    &&& cell_in_bounds(start, rows, cols)
    &&& 0 <= si < rc
    &&& s.g[si] == Some(0usize)
    &&& s.parent[si] is None
    &&& frontier_ok(s, rows, cols)
    &&& gscores_ok(s.g, rc)
    &&& parents_ok(s.g, s.parent, rows, cols, start)
    &&& s.effort == count_done(s.visited)
}

pub proof fn lemma_relax_keeps_tables(
    s: SearchState,
    walls: Seq<bool>,
    rows: int,
    cols: int,
    start: Cell,
    end: Cell,
    curr: Cell,
    nr: int,
    nc: int,
)
    requires
        tables_ok(s, walls, rows, cols, start),
        cell_in_bounds(curr, rows, cols),
    ensures
        tables_ok(relax(s, walls, rows, cols, end, curr, nr, nc), walls, rows, cols, start),
        forall|j: int|
            0 <= j < s.g.len() && (#[trigger] s.g[j]) is Some ==> relax(
                s,
                walls,
                rows,
                cols,
                end,
                curr,
                nr,
                nc,
            ).g[j] == s.g[j],
{
    let rc = rows * cols;
    let i = nr * cols + nc;
    let ci = cell_index(curr, cols);
    let t = relax(s, walls, rows, cols, end, curr, nr, nc);
    if 0 <= nr < rows && 0 <= nc < cols && 0 <= i < walls.len() && !walls[i] && i < s.g.len()
        && s.g[i] is None && i < s.parent.len() && 0 <= ci < s.g.len() && s.g[ci] is Some {
        let gval = (s.g[ci]->0 + 1) as usize;
        lemma_count_unknown_fill(s.g, i, gval);
        assert(s.g[ci]->0 + count_unknown(s.g) < rc);
        assert(gval == s.g[ci]->0 + 1);
        assert forall|j: int| 0 <= j < t.g.len() && (#[trigger] t.g[j]) is Some implies t.g[j]->0
            + count_unknown(t.g) < rc by {
            if j != i {
                assert(s.g[j] is Some);
            }
        }
        assert(gscores_ok(t.g, rc));
        let n = Cell { row: nr as usize, col: nc as usize };
        assert(cell_index(n, cols) == i);
        assert forall|k: int| 0 <= k < t.frontier.len() implies {
            let e = #[trigger] t.frontier[k];
            &&& cell_in_bounds(e.cell, rows, cols)
            &&& 0 <= cell_index(e.cell, cols) < t.g.len()
            &&& t.g[cell_index(e.cell, cols)] is Some
        } by {
            if k < s.frontier.len() {
                assert(s.frontier[k] == t.frontier[k]);
            }
        }
        assert forall|j: int| 0 <= j < t.parent.len() && (#[trigger] t.parent[j]) is Some implies {
            let q = t.parent[j]->0;
            &&& j < t.g.len() && t.g[j] is Some
            &&& cell_in_bounds(q, rows, cols)
            &&& 0 <= cell_index(q, cols) < t.g.len()
            &&& t.g[cell_index(q, cols)] is Some
            &&& t.g[cell_index(q, cols)]->0 + 1 == t.g[j]->0
        } by {
            if j != i {
                assert(s.parent[j] == t.parent[j]);
                assert(s.parent[j] is Some);
                let q = s.parent[j]->0;
                assert(s.g[j] is Some);
                assert(t.g[j] == s.g[j]);
                assert(s.g[cell_index(q, cols)] is Some);
                assert(cell_index(q, cols) != i);
                assert(t.g[cell_index(q, cols)] == s.g[cell_index(q, cols)]);
            } else {
                assert(t.parent[i]->0 == curr);
                assert(ci != i);
                assert(t.g[ci] == s.g[ci]);
                assert(t.g[i] == Some(gval));
            }
        }
        assert forall|j: int|
            0 <= j < t.g.len() && j != cell_index(start, cols) && (#[trigger] t.g[j]) is Some
            implies (j < t.parent.len() && t.parent[j] is Some) by {
            if j != i {
                assert(t.g[j] == s.g[j]);
                assert(s.g[j] is Some);
            }
        }
    }
}

pub proof fn lemma_expand_keeps_tables(
    s: SearchState,
    walls: Seq<bool>,
    rows: int,
    cols: int,
    start: Cell,
    end: Cell,
    curr: Cell,
)
    requires
        tables_ok(s, walls, rows, cols, start),
        cell_in_bounds(curr, rows, cols),
    ensures
        tables_ok(expand(s, walls, rows, cols, end, curr), walls, rows, cols, start),
{
    let r = curr.row as int;
    let c = curr.col as int;
    let s1 = relax(s, walls, rows, cols, end, curr, r - 1, c);
    let s2 = relax(s1, walls, rows, cols, end, curr, r + 1, c);
    let s3 = relax(s2, walls, rows, cols, end, curr, r, c + 1);
    lemma_relax_keeps_tables(s, walls, rows, cols, start, end, curr, r - 1, c);
    lemma_relax_keeps_tables(s1, walls, rows, cols, start, end, curr, r + 1, c);
    lemma_relax_keeps_tables(s2, walls, rows, cols, start, end, curr, r, c + 1);
    lemma_relax_keeps_tables(s3, walls, rows, cols, start, end, curr, r, c - 1);
}

pub proof fn lemma_pop_keeps_tables(
    s: SearchState,
    walls: Seq<bool>,
    rows: int,
    cols: int,
    start: Cell,
    m: int,
)
    requires
        tables_ok(s, walls, rows, cols, start),
        0 <= m < s.frontier.len(),
    ensures
        tables_ok(
            SearchState { frontier: s.frontier.remove(m), ..s },
            walls,
            rows,
            cols,
            start,
        ),
{
    let t = SearchState { frontier: s.frontier.remove(m), ..s };
    s.frontier.remove_ensures(m);
    assert forall|k: int| 0 <= k < t.frontier.len() implies {
        let e = #[trigger] t.frontier[k];
        &&& cell_in_bounds(e.cell, rows, cols)
        &&& 0 <= cell_index(e.cell, cols) < t.g.len()
        &&& t.g[cell_index(e.cell, cols)] is Some
    } by {
        if k < m {
            assert(t.frontier[k] == s.frontier[k]);
        } else {
            assert(t.frontier[k] == s.frontier[k + 1]);
        }
    }
}

pub proof fn lemma_visit_keeps_tables(
    s: SearchState,
    walls: Seq<bool>,
    rows: int,
    cols: int,
    start: Cell,
    i: int,
)
    requires
        tables_ok(s, walls, rows, cols, start),
        0 <= i < s.visited.len(),
        !s.visited[i],
    ensures
        tables_ok(
            SearchState { visited: s.visited.update(i, true), effort: s.effort + 1, ..s },
            walls,
            rows,
            cols,
            start,
        ),
        s.effort + 1 <= rows * cols,
{
    lemma_count_done_mark(s.visited, i);
    lemma_count_done_le_len(s.visited.update(i, true));
}

/// What the search engine returns, as a function of its inputs alone:
/// when either endpoint is absent, the endpoints coincide, or either
/// endpoint is impassable, the path is empty and no cell is expanded;
/// otherwise the result of running the engine from the seeded state.
pub open spec fn search_spec(
    walls: Seq<bool>,
    rows: int,
    cols: int,
    start: Option<Cell>,
    end: Option<Cell>,
) -> (Seq<Cell>, nat) {
    if start is None || end is None {
        (Seq::empty(), 0)
    } else if start->0 == end->0 {
        (Seq::empty(), 0)
    } else if !passable(walls, rows, cols, start->0) || !passable(walls, rows, cols, end->0) {
        (Seq::empty(), 0)
    } else {
        run(init_state(rows, cols, start->0, end->0), walls, rows, cols, start->0, end->0)
    }
}

proof fn lemma_grid_fits(rows: int, cols: int)
    requires
        rows >= 1,
        cols >= 1,
    ensures
        rows * cols >= rows + cols - 1,
        rows * cols >= rows,
        rows * cols >= cols,
{
    assert(rows * cols >= rows + cols - 1 && rows * cols >= rows && rows * cols >= cols)
        by (nonlinear_arith)
        requires
            rows >= 1,
            cols >= 1,
    ;
}

pub proof fn lemma_cell_index_range(c: Cell, rows: int, cols: int)
    requires
        cell_in_bounds(c, rows, cols),
        rows >= 1,
        cols >= 1,
    ensures
        0 <= cell_index(c, cols) < rows * cols,
{
    assert(0 <= c.row * cols + c.col < rows * cols) by (nonlinear_arith)
        requires
            c.row < rows,
            c.col < cols,
            c.row >= 0,
            c.col >= 0,
            rows >= 1,
            cols >= 1,
    ;
}

proof fn lemma_index_injective(a: Cell, b: Cell, rows: int, cols: int)
    requires
        cell_in_bounds(a, rows, cols),
        cell_in_bounds(b, rows, cols),
        cell_index(a, cols) == cell_index(b, cols),
    ensures
        a == b,
{
    assert(a.row == b.row && a.col == b.col) by (nonlinear_arith)
        requires
            a.row * cols + a.col == b.row * cols + b.col,
            a.col < cols,
            b.col < cols,
            a.row >= 0,
            b.row >= 0,
            a.col >= 0,
            b.col >= 0,
            cols >= 1,
    ;
}

proof fn lemma_run_skip(
    s: SearchState,
    walls: Seq<bool>,
    rows: int,
    cols: int,
    start: Cell,
    end: Cell,
)
    requires
        s.frontier.len() > 0,
        ({
            let i = cell_index(s.frontier[min_index(s.frontier)].cell, cols);
            !(0 <= i < s.visited.len()) || s.visited[i]
        }),
    ensures
        run(s, walls, rows, cols, start, end) == run(
            SearchState { frontier: s.frontier.remove(min_index(s.frontier)), ..s },
            walls,
            rows,
            cols,
            start,
            end,
        ),
{
}

proof fn lemma_run_goal(
    s: SearchState,
    walls: Seq<bool>,
    rows: int,
    cols: int,
    start: Cell,
    end: Cell,
)
    requires
        s.frontier.len() > 0,
        ({
            let i = cell_index(s.frontier[min_index(s.frontier)].cell, cols);
            0 <= i < s.visited.len() && !s.visited[i]
        }),
        s.frontier[min_index(s.frontier)].cell == end,
    ensures
        run(s, walls, rows, cols, start, end) == (
            reconstruct(s.parent, cols, start, end, (rows * cols) as nat),
            s.effort + 1,
        ),
{
}

proof fn lemma_run_expand(
    s: SearchState,
    walls: Seq<bool>,
    rows: int,
    cols: int,
    start: Cell,
    end: Cell,
)
    requires
        s.frontier.len() > 0,
        ({
            let i = cell_index(s.frontier[min_index(s.frontier)].cell, cols);
            0 <= i < s.visited.len() && !s.visited[i]
        }),
        s.frontier[min_index(s.frontier)].cell != end,
    ensures
        run(s, walls, rows, cols, start, end) == run(
            expand(
                SearchState {
                    frontier: s.frontier.remove(min_index(s.frontier)),
                    visited: s.visited.update(
                        cell_index(s.frontier[min_index(s.frontier)].cell, cols),
                        true,
                    ),
                    effort: s.effort + 1,
                    ..s
                },
                walls,
                rows,
                cols,
                end,
                s.frontier[min_index(s.frontier)].cell,
            ),
            walls,
            rows,
            cols,
            start,
            end,
        ),
{
}

/// The transient tables of one invocation, with the model state as view.
struct Tables {
    g: Vec<Option<usize>>,
    parent: Vec<Option<Cell>>,
    visited: Vec<bool>,
    frontier: Vec<Entry>,
    effort: u64,
}

impl View for Tables {
    type V = SearchState;

    closed spec fn view(&self) -> SearchState {
        SearchState {
            g: self.g@,
            parent: self.parent@,
            visited: self.visited@,
            frontier: self.frontier@,
            effort: self.effort as nat,
        }
    }
}

/// Position of the entry the frontier yields next: least f-score, ties
/// broken by least row, then least column, earliest on equal triples.
fn select_min(fr: &Vec<Entry>) -> (best: usize)
    requires
        fr@.len() > 0,
    ensures
        best < fr@.len(),
        best as int == min_index(fr@),
{
    let mut best: usize = 0;
    let mut k: usize = 1;
    while k < fr.len()
        invariant
            1 <= k <= fr@.len(),
            best < k,
            best as int == min_index(fr@.take(k as int)),
        decreases fr@.len() - k,
    {
        let cand = fr[k];
        let b = fr[best];
        let pick = if cand.fscore < b.fscore {
            true
        } else if cand.fscore == b.fscore && cand.cell.row < b.cell.row {
            true
        } else if cand.fscore == b.fscore && cand.cell.row == b.cell.row && cand.cell.col
            < b.cell.col {
            true
        } else {
            false
        };
        proof {
            assert(fr@.take(k as int + 1).drop_last() =~= fr@.take(k as int));
            assert(fr@.take(k as int + 1).last() == fr@[k as int]);
            assert(fr@.take(k as int + 1)[best as int] == fr@[best as int]);
        }
        if pick {
            best = k;
        }
        k = k + 1;
    }
    proof {
        assert(fr@.take(fr@.len() as int) =~= fr@);
    }
    best
}

/// One relaxation step: mirrors `relax` exactly.
fn relax_cell(
    t: &mut Tables,
    walls: &Vec<bool>,
    rows: usize,
    cols: usize,
    start: Cell,
    end: Cell,
    curr: Cell,
    n: Cell,
) -> (nothing: ())
    requires
        tables_ok(old(t)@, walls@, rows as int, cols as int, start),
        cell_in_bounds(curr, rows as int, cols as int),
        cell_in_bounds(n, rows as int, cols as int),
        cell_in_bounds(end, rows as int, cols as int),
        old(t)@.g[cell_index(curr, cols as int)] is Some,
    ensures
        final(t)@ == relax(
            old(t)@,
            walls@,
            rows as int,
            cols as int,
            end,
            curr,
            n.row as int,
            n.col as int,
        ),
        tables_ok(final(t)@, walls@, rows as int, cols as int, start),
        forall|j: int|
            0 <= j < old(t)@.g.len() && (#[trigger] old(t)@.g[j]) is Some ==> final(t)@.g[j]
                == old(t)@.g[j],
{
    proof {
        lemma_grid_fits(rows as int, cols as int);
    }
    let ni = index_of(n, rows, cols);
    if !walls[ni] && t.g[ni].is_none() {
        let ci = index_of(curr, rows, cols);
        let gcur = t.g[ci].unwrap();
        proof {
            assert((t@.g[ci as int]) is Some);
            assert(gcur + count_unknown(t@.g) < rows * cols);
        }
        let gval = gcur + 1;
        let h = n.distance(&end);
        let f = gval + h;
        t.g[ni] = Some(gval);
        t.parent[ni] = Some(curr);
        t.frontier.push(Entry { cell: n, fscore: f });
        proof {
            let r = relax(
                old(t)@,
                walls@,
                rows as int,
                cols as int,
                end,
                curr,
                n.row as int,
                n.col as int,
            );
            assert(t@ =~= r);
            lemma_relax_keeps_tables(
                old(t)@,
                walls@,
                rows as int,
                cols as int,
                start,
                end,
                curr,
                n.row as int,
                n.col as int,
            );
        }
    } else {
        proof {
            assert(t@ == relax(
                old(t)@,
                walls@,
                rows as int,
                cols as int,
                end,
                curr,
                n.row as int,
                n.col as int,
            ));
        }
    }
}

proof fn lemma_walk_step(
    parent: Seq<Option<Cell>>,
    g: Seq<Option<usize>>,
    rows: int,
    cols: int,
    start: Cell,
    p: Cell,
    fuel: nat,
)
    requires
        rows >= 1,
        cols >= 1,
        g.len() == rows * cols,
        parent.len() == rows * cols,
        cell_in_bounds(start, rows, cols),
        g[cell_index(start, cols)] == Some(0usize),
        parents_ok(g, parent, rows, cols, start),
        cell_in_bounds(p, rows, cols),
        g[cell_index(p, cols)] is Some,
        p != start,
        fuel >= g[cell_index(p, cols)]->0 + 1,
    ensures
        parent[cell_index(p, cols)] is Some,
        ({
            let q = parent[cell_index(p, cols)]->0;
            &&& cell_in_bounds(q, rows, cols)
            &&& g[cell_index(q, cols)] is Some
            &&& g[cell_index(q, cols)]->0 + 1 == g[cell_index(p, cols)]->0
            &&& fuel - 1 >= g[cell_index(q, cols)]->0 + 1
            &&& reconstruct(parent, cols, start, p, fuel) == reconstruct(
                parent,
                cols,
                start,
                q,
                (fuel - 1) as nat,
            ).push(p)
        }),
{
    let i = cell_index(p, cols);
    assert(0 <= i < rows * cols) by (nonlinear_arith)
        requires
            i == p.row * cols + p.col,
            p.row < rows,
            p.col < cols,
            p.row >= 0,
            p.col >= 0,
            rows >= 1,
            cols >= 1,
    ;
    if i == cell_index(start, cols) {
        lemma_index_injective(p, start, rows, cols);
    }
    assert(g[i] is Some);
    assert(parent[i] is Some);
}

/// The route recovered by walking parent links back from `end`.
#[verifier::rlimit(100)]
fn build_path(
    parent: &Vec<Option<Cell>>,
    g: &Vec<Option<usize>>,
    rows: usize,
    cols: usize,
    start: Cell,
    end: Cell,
) -> (p: Vec<Cell>)
    requires
        rows >= 1,
        cols >= 1,
        rows * cols + rows + cols <= usize::MAX,
        g@.len() == rows * cols,
        parent@.len() == rows * cols,
        cell_in_bounds(start, rows as int, cols as int),
        cell_in_bounds(end, rows as int, cols as int),
        g@[cell_index(start, cols as int)] == Some(0usize),
        gscores_ok(g@, rows as int * cols as int),
        parents_ok(g@, parent@, rows as int, cols as int, start),
        g@[cell_index(end, cols as int)] is Some,
    ensures
        p@ == reconstruct(parent@, cols as int, start, end, (rows * cols) as nat),
        forall|k: int|
            0 <= k < p@.len() ==> cell_in_bounds(#[trigger] p@[k], rows as int, cols as int),
{
    let ghost co = cols as int;
    let ghost fuel0 = (rows * cols) as nat;
    let ghost mut fuel = (rows * cols) as nat;
    let mut rev: Vec<Cell> = Vec::new();
    let mut p = end;
    proof {
        lemma_cell_index_range(end, rows as int, cols as int);
        assert((g@[cell_index(end, co)]) is Some);
    }
    while !(p == start)
        invariant
            rows >= 1,
            cols >= 1,
            co == cols as int,
            rows * cols + rows + cols <= usize::MAX,
            g@.len() == rows * cols,
            parent@.len() == rows * cols,
            cell_in_bounds(start, rows as int, cols as int),
            g@[cell_index(start, co)] == Some(0usize),
            parents_ok(g@, parent@, rows as int, cols as int, start),
            cell_in_bounds(p, rows as int, cols as int),
            g@[cell_index(p, co)] is Some,
            fuel >= g@[cell_index(p, co)]->0 + 1,
            fuel <= fuel0,
            forall|k: int|
                0 <= k < rev@.len() ==> cell_in_bounds(
                    #[trigger] rev@[k],
                    rows as int,
                    cols as int,
                ),
            reconstruct(parent@, co, start, end, fuel0) == reconstruct(
                parent@,
                co,
                start,
                p,
                fuel,
            ).add(rev@.reverse()),
        decreases g@[cell_index(p, co)]->0,
    {
        proof {
            lemma_walk_step(parent@, g@, rows as int, cols as int, start, p, fuel);
        }
        let ghost rev0 = rev@;
        let ghost p0 = p;
        rev.push(p);
        let i = index_of(p, rows, cols);
        let q = parent[i].unwrap();
        proof {
            fuel = (fuel - 1) as nat;
            assert(rev@.reverse() =~= seq![p0].add(rev0.reverse()));
            assert(reconstruct(parent@, co, start, q, fuel).push(p0).add(rev0.reverse())
                =~= reconstruct(parent@, co, start, q, fuel).add(rev@.reverse()));
        }
        p = q;
    }
    proof {
        assert(reconstruct(parent@, co, start, p, fuel) == Seq::<Cell>::empty());
        assert(reconstruct(parent@, co, start, end, fuel0) =~= rev@.reverse());
    }
    let mut out: Vec<Cell> = Vec::new();
    while rev.len() > 0
        invariant
            out@.add(rev@.reverse()) == reconstruct(parent@, co, start, end, fuel0),
            forall|k: int|
                0 <= k < rev@.len() ==> cell_in_bounds(
                    #[trigger] rev@[k],
                    rows as int,
                    cols as int,
                ),
            forall|k: int|
                0 <= k < out@.len() ==> cell_in_bounds(
                    #[trigger] out@[k],
                    rows as int,
                    cols as int,
                ),
        decreases rev@.len(),
    {
        let ghost rv = rev@;
        let ghost out0 = out@;
        let x = rev.pop().unwrap();
        out.push(x);
        proof {
            assert(rv.reverse() =~= seq![x].add(rev@.reverse()));
            assert(out@.add(rev@.reverse()) =~= out0.add(rv.reverse()));
        }
    }
    proof {
        assert(out@ =~= out@.add(rev@.reverse()));
    }
    out
}

/// Runs the engine from the given state to quiescence; the result is
/// exactly what the model `run` computes from the same state.
fn run_engine(
    t: &mut Tables,
    walls: &Vec<bool>,
    rows: usize,
    cols: usize,
    start: Cell,
    end: Cell,
) -> (r: (Vec<Cell>, u64))
    requires
        tables_ok(old(t)@, walls@, rows as int, cols as int, start),
        cell_in_bounds(end, rows as int, cols as int),
    ensures
        (r.0@, r.1 as nat) == run(old(t)@, walls@, rows as int, cols as int, start, end),
        r.1 <= rows * cols,
        forall|k: int|
            0 <= k < r.0@.len() ==> cell_in_bounds(#[trigger] r.0@[k], rows as int, cols as int),
{
    let ghost t0 = old(t)@;
    let ghost w = walls@;
    let ghost ri = rows as int;
    let ghost co = cols as int;
    while t.frontier.len() > 0
        invariant
            tables_ok(t@, w, ri, co, start),
            cell_in_bounds(end, ri, co),
            w == walls@,
            ri == rows as int,
            co == cols as int,
            t0 == old(t)@,
            run(t@, w, ri, co, start, end) == run(t0, w, ri, co, start, end),
        decreases step_measure(t@),
    {
        let ghost pre = t@;
        let best = select_min(&t.frontier);
        proof {
            lemma_min_index(pre.frontier);
        }
        let ghost m = min_index(pre.frontier);
        let e = t.frontier.remove(best);
        let ghost s1 = SearchState { frontier: pre.frontier.remove(m), ..pre };
        proof {
            assert(t@ =~= s1);
            assert(e == pre.frontier[m]);
            assert(cell_in_bounds(e.cell, ri, co));
            lemma_pop_keeps_tables(pre, w, ri, co, start, m);
        }
        let ci = index_of(e.cell, rows, cols);
        if t.visited[ci] {
            proof {
                lemma_run_skip(pre, w, ri, co, start, end);
            }
        } else {
            proof {
                lemma_visit_keeps_tables(s1, w, ri, co, start, ci as int);
            }
            t.visited[ci] = true;
            t.effort = t.effort + 1;
            let ghost s2 = SearchState {
                visited: s1.visited.update(ci as int, true),
                effort: s1.effort + 1,
                ..s1
            };
            proof {
                assert(t@ =~= s2);
            }
            if e.cell == end {
                proof {
                    assert((t@.g[cell_index(e.cell, co)]) is Some);
                }
                let path = build_path(&t.parent, &t.g, rows, cols, start, end);
                proof {
                    lemma_run_goal(pre, w, ri, co, start, end);
                    lemma_count_done_le_len(t@.visited);
                }
                return (path, t.effort);
            } else {
                let cr = e.cell.row;
                let cc = e.cell.col;
                let ghost s3 = relax(s2, w, ri, co, end, e.cell, cr as int - 1, cc as int);
                if cr > 0 {
                    relax_cell(t, walls, rows, cols, start, end, e.cell, Cell { row: cr - 1, col: cc });
                }
                proof {
                    assert(t@ == s3);
                    lemma_relax_keeps_tables(s2, w, ri, co, start, end, e.cell, cr as int - 1, cc as int);
                    assert((s3.g[cell_index(e.cell, co)]) is Some);
                }
                let ghost s4 = relax(s3, w, ri, co, end, e.cell, cr as int + 1, cc as int);
                if cr + 1 < rows {
                    relax_cell(t, walls, rows, cols, start, end, e.cell, Cell { row: cr + 1, col: cc });
                }
                proof {
                    assert(t@ == s4);
                    lemma_relax_keeps_tables(s3, w, ri, co, start, end, e.cell, cr as int + 1, cc as int);
                    assert((s4.g[cell_index(e.cell, co)]) is Some);
                }
                let ghost s5 = relax(s4, w, ri, co, end, e.cell, cr as int, cc as int + 1);
                if cc + 1 < cols {
                    relax_cell(t, walls, rows, cols, start, end, e.cell, Cell { row: cr, col: cc + 1 });
                }
                proof {
                    assert(t@ == s5);
                    lemma_relax_keeps_tables(s4, w, ri, co, start, end, e.cell, cr as int, cc as int + 1);
                    assert((s5.g[cell_index(e.cell, co)]) is Some);
                }
                let ghost s6 = relax(s5, w, ri, co, end, e.cell, cr as int, cc as int - 1);
                if cc > 0 {
                    relax_cell(t, walls, rows, cols, start, end, e.cell, Cell { row: cr, col: cc - 1 });
                }
                proof {
                    assert(t@ == s6);
                    lemma_relax_keeps_tables(s5, w, ri, co, start, end, e.cell, cr as int, cc as int - 1);
                    assert(t@ == expand(s2, w, ri, co, end, e.cell));
                    lemma_expand_keeps_tables(s2, w, ri, co, start, end, e.cell);
                    lemma_expand_measure(s2, w, ri, co, end, e.cell);
                    lemma_run_expand(pre, w, ri, co, start, end);
                }
            }
        }
    }
    proof {
        assert(run(t@, w, ri, co, start, end) == (Seq::<Cell>::empty(), t@.effort));
        lemma_count_done_le_len(t@.visited);
    }
    (Vec::new(), t.effort)
}

proof fn lemma_counts_of_fresh(n: nat)
    ensures
        count_unknown(Seq::new(n, |i: int| None::<usize>)) == n,
        count_done(Seq::new(n, |i: int| false)) == 0,
    decreases n,
{
    if n > 0 {
        lemma_counts_of_fresh((n - 1) as nat);
        assert(Seq::new(n, |i: int| None::<usize>).drop_first() =~= Seq::new(
            (n - 1) as nat,
            |i: int| None::<usize>,
        ));
        assert(Seq::new(n, |i: int| false).drop_first() =~= Seq::new(
            (n - 1) as nat,
            |i: int| false,
        ));
    }
}

/// Whatever route the walk recovers ends at its argument cell and never
/// contains the start cell.
pub proof fn lemma_reconstruct_shape(
    parent: Seq<Option<Cell>>,
    cols: int,
    start: Cell,
    p: Cell,
    fuel: nat,
)
    ensures
        ({
            let r = reconstruct(parent, cols, start, p, fuel);
            &&& (r.len() > 0 ==> r[r.len() - 1] == p)
            &&& forall|k: int| 0 <= k < r.len() ==> r[k] != start
        }),
    decreases fuel,
{
    if !(p == start || fuel == 0) {
        let i = cell_index(p, cols);
        if 0 <= i < parent.len() && parent[i] is Some {
            lemma_reconstruct_shape(parent, cols, start, parent[i]->0, (fuel - 1) as nat);
        }
    }
}

/// Whatever path a run of the engine yields ends at `end` and never
/// contains `start`.
pub proof fn lemma_run_path_shape(
    s: SearchState,
    walls: Seq<bool>,
    rows: int,
    cols: int,
    start: Cell,
    end: Cell,
)
    ensures
        ({
            let r = run(s, walls, rows, cols, start, end).0;
            &&& (r.len() > 0 ==> r[r.len() - 1] == end)
            &&& forall|k: int| 0 <= k < r.len() ==> r[k] != start
        }),
    decreases step_measure(s),
{
    if s.frontier.len() > 0 {
        lemma_min_index(s.frontier);
        let m = min_index(s.frontier);
        let e = s.frontier[m];
        let s1 = SearchState { frontier: s.frontier.remove(m), ..s };
        let i = cell_index(e.cell, cols);
        if !(0 <= i < s1.visited.len()) || s1.visited[i] {
            lemma_run_path_shape(s1, walls, rows, cols, start, end);
        } else {
            let s2 = SearchState {
                visited: s1.visited.update(i, true),
                effort: s1.effort + 1,
                ..s1
            };
            if e.cell == end {
                lemma_reconstruct_shape(s2.parent, cols, start, end, (rows * cols) as nat);
            } else {
                lemma_expand_measure(s2, walls, rows, cols, end, e.cell);
                lemma_run_path_shape(
                    expand(s2, walls, rows, cols, end, e.cell),
                    walls,
                    rows,
                    cols,
                    start,
                    end,
                );
            }
        }
    }
}

/// The passability oracle: within bounds and not a wall.
pub fn passable_at(walls: &Vec<bool>, rows: usize, cols: usize, c: Cell) -> (r: bool)
    requires
        walls@.len() == rows * cols,
        rows >= 1,
        cols >= 1,
        rows * cols <= usize::MAX,
    ensures
        r == passable(walls@, rows as int, cols as int, c),
{
    if c.row < rows && c.col < cols {
        let i = index_of(c, rows, cols);
        !walls[i]
    } else {
        false
    }
}

/// The search engine: A* from `start` to `end` over `walls` (row-major,
/// `rows * cols` cells). The returned path runs from `start` to `end`,
/// excluding `start` and including `end`, or is empty when either
/// endpoint is absent, the endpoints coincide, either endpoint is
/// impassable, or no route exists; the second component counts the cells
/// finalized. The result equals `search_spec` of the arguments — a
/// function of the inputs alone — so repeated invocations on identical
/// inputs yield identical paths.
pub fn search(
    walls: &Vec<bool>,
    rows: usize,
    cols: usize,
    start: Option<Cell>,
    end: Option<Cell>,
) -> (r: (Vec<Cell>, u64))
    requires
        rows >= 1,
        cols >= 1,
        walls@.len() == rows * cols,
        rows * cols + rows + cols <= usize::MAX,
    ensures
        (r.0@, r.1 as nat) == search_spec(walls@, rows as int, cols as int, start, end),
        r.1 <= rows * cols,
        start is None || end is None ==> r.0@ == Seq::<Cell>::empty() && r.1 == 0,
        start is Some && end is Some && start->0 == end->0 ==> r.0@ == Seq::<Cell>::empty()
            && r.1 == 0,
        start is Some && end is Some && !(passable(walls@, rows as int, cols as int, start->0)
            && passable(walls@, rows as int, cols as int, end->0)) ==> r.0@
            == Seq::<Cell>::empty() && r.1 == 0,
        forall|k: int|
            0 <= k < r.0@.len() ==> cell_in_bounds(#[trigger] r.0@[k], rows as int, cols as int),
{
    let (s, e) = match (start, end) {
        (Some(s), Some(e)) => (s, e),
        _ => {
            return (Vec::new(), 0);
        },
    };
    if s == e {
        return (Vec::new(), 0);
    }
    if !passable_at(walls, rows, cols, s) || !passable_at(walls, rows, cols, e) {
        return (Vec::new(), 0);
    }
    let rc = rows * cols;
    let mut g: Vec<Option<usize>> = Vec::new();
    let mut parent: Vec<Option<Cell>> = Vec::new();
    let mut visited: Vec<bool> = Vec::new();
    let mut i: usize = 0;
    while i < rc
        invariant
            i <= rc,
            g@.len() == i as int,
            parent@.len() == i as int,
            visited@.len() == i as int,
            forall|j: int| 0 <= j < i ==> (#[trigger] g@[j]) is None,
            forall|j: int| 0 <= j < i ==> (#[trigger] parent@[j]) is None,
            forall|j: int| 0 <= j < i ==> !(#[trigger] visited@[j]),
        decreases rc - i,
    {
        g.push(None);
        parent.push(None);
        visited.push(false);
        i = i + 1;
    }
    let si = index_of(s, rows, cols);
    g[si] = Some(0);
    proof {
        lemma_grid_fits(rows as int, cols as int);
    }
    let h0 = s.distance(&e);
    let mut frontier: Vec<Entry> = Vec::new();
    frontier.push(Entry { cell: s, fscore: h0 });
    let mut t = Tables { g, parent, visited, frontier, effort: 0 };
    proof {
        let ri = rows as int;
        let co = cols as int;
        let init = init_state(ri, co, s, e);
        assert(t@.g =~= init.g);
        assert(t@.parent =~= init.parent);
        assert(t@.visited =~= init.visited);
        assert(t@.frontier =~= init.frontier);
        assert(t@ =~= init);
        lemma_cell_index_range(s, ri, co);
        lemma_counts_of_fresh((ri * co) as nat);
        let all_none = Seq::new((ri * co) as nat, |j: int| None::<usize>);
        assert(init.g =~= all_none.update(cell_index(s, co), Some(0usize)));
        lemma_count_unknown_fill(all_none, cell_index(s, co), 0);
        assert(count_unknown(init.g) == ri * co - 1);
        assert forall|j: int|
            0 <= j < init.g.len() && (#[trigger] init.g[j]) is Some implies init.g[j]->0
            + count_unknown(init.g) < ri * co by {
            assert(j == cell_index(s, co));
        }
        assert(gscores_ok(init.g, ri * co));
        assert(parents_ok(init.g, init.parent, ri, co, s));
        assert(frontier_ok(init, ri, co));
        assert(init.effort == count_done(init.visited));
        assert(tables_ok(t@, walls@, ri, co, s));
    }
    let (path, effort) = run_engine(&mut t, walls, rows, cols, s, e);
    proof {
        assert(search_spec(walls@, rows as int, cols as int, start, end) == run(
            init_state(rows as int, cols as int, s, e),
            walls@,
            rows as int,
            cols as int,
            s,
            e,
        ));
    }
    (path, effort)
}

} // verus!
