use gridpath::cell::Cell;
use gridpath::grid::Grid;

fn cell(row: usize, col: usize) -> Cell {
    Cell::new(row, col)
}

fn grid_with_walls(rows: usize, cols: usize, walls: &[(usize, usize)]) -> Grid {
    let mut g = Grid::new(rows, cols);
    for &(r, c) in walls {
        g.set_wall(cell(r, c), true);
    }
    g
}

/// Brute-force BFS distance oracle over the same 4-connected grid.
fn bfs_distance(
    rows: usize,
    cols: usize,
    walls: &[(usize, usize)],
    s: (usize, usize),
    e: (usize, usize),
) -> Option<usize> {
    let mut blocked = vec![false; rows * cols];
    for &(r, c) in walls {
        blocked[r * cols + c] = true;
    }
    if blocked[s.0 * cols + s.1] || blocked[e.0 * cols + e.1] {
        return None;
    }
    let mut dist = vec![None; rows * cols];
    dist[s.0 * cols + s.1] = Some(0usize);
    let mut queue = vec![s];
    let mut head = 0;
    while head < queue.len() {
        let (r, c) = queue[head];
        head += 1;
        let d = dist[r * cols + c].unwrap();
        if (r, c) == e {
            return Some(d);
        }
        let mut nexts = Vec::new();
        if r > 0 {
            nexts.push((r - 1, c));
        }
        if r + 1 < rows {
            nexts.push((r + 1, c));
        }
        if c + 1 < cols {
            nexts.push((r, c + 1));
        }
        if c > 0 {
            nexts.push((r, c - 1));
        }
        for (nr, nc) in nexts {
            let i = nr * cols + nc;
            if !blocked[i] && dist[i].is_none() {
                dist[i] = Some(d + 1);
                queue.push((nr, nc));
            }
        }
    }
    None
}

/// The path must be a chain of passable, adjacent cells from start
/// (excluded) to end (included).
fn check_path_shape(g: &Grid, path: &[Cell], s: Cell, e: Cell) {
    assert!(!path.is_empty());
    assert_eq!(path[path.len() - 1], e);
    let mut prev = s;
    for p in path {
        let dr = if p.row >= prev.row { p.row - prev.row } else { prev.row - p.row };
        let dc = if p.col >= prev.col { p.col - prev.col } else { prev.col - p.col };
        assert_eq!(dr + dc, 1, "consecutive path cells must be adjacent");
        assert!(g.is_passable(*p));
        assert_ne!(*p, s, "the path excludes the start cell");
        prev = *p;
    }
}

#[test]
fn start_equals_end_gives_empty_path() {
    let mut g = grid_with_walls(5, 5, &[(2, 2), (3, 3)]);
    g.set_start(Some(cell(0, 0)));
    g.set_end(Some(cell(0, 0)));
    let (path, effort) = g.search();
    assert!(path.is_empty());
    assert_eq!(effort, 0);
}

#[test]
fn absent_endpoint_gives_empty_path() {
    let mut g = Grid::new(4, 4);
    let (path, effort) = g.search();
    assert!(path.is_empty());
    assert_eq!(effort, 0);
    g.set_start(Some(cell(1, 1)));
    let (path, effort) = g.search();
    assert!(path.is_empty());
    assert_eq!(effort, 0);
}

#[test]
fn wall_endpoint_gives_empty_path() {
    let mut g = grid_with_walls(4, 4, &[(0, 0), (3, 3)]);
    g.set_start(Some(cell(0, 0)));
    g.set_end(Some(cell(2, 2)));
    let (path, effort) = g.search();
    assert!(path.is_empty());
    assert_eq!(effort, 0);
    g.set_start(Some(cell(1, 1)));
    g.set_end(Some(cell(3, 3)));
    let (path, effort) = g.search();
    assert!(path.is_empty());
    assert_eq!(effort, 0);
}

#[test]
fn partial_wall_row_leaves_length_eight_route() {
    let mut g = grid_with_walls(5, 5, &[(1, 1), (1, 2), (1, 3)]);
    g.set_start(Some(cell(0, 0)));
    g.set_end(Some(cell(4, 4)));
    let (path, effort) = g.search();
    assert_eq!(path.len(), 8);
    check_path_shape(&g, &path, cell(0, 0), cell(4, 4));
    assert!(effort > 8, "the search must expand interior cells");
    assert!(effort <= 25, "effort is bounded by the grid size");
}

#[test]
fn full_wall_row_blocks_every_route() {
    let mut g = grid_with_walls(3, 3, &[(1, 0), (1, 1), (1, 2)]);
    g.set_start(Some(cell(0, 0)));
    g.set_end(Some(cell(2, 2)));
    let (path, effort) = g.search();
    assert!(path.is_empty());
    assert_eq!(effort, 3, "only the reachable cells of row 0 are expanded");
}

#[test]
fn repeated_searches_yield_identical_paths() {
    let mut g = grid_with_walls(
        20,
        20,
        &[(0, 5), (1, 5), (2, 5), (3, 5), (10, 3), (10, 4), (10, 5), (11, 5), (12, 5)],
    );
    g.set_start(Some(cell(0, 0)));
    g.set_end(Some(cell(19, 19)));
    let (p1, e1) = g.search();
    let (p2, e2) = g.search();
    assert_eq!(p1, p2);
    assert_eq!(e1, e2);
}

#[test]
fn tie_break_prefers_smaller_row_then_column() {
    let mut g = Grid::new(3, 3);
    g.set_start(Some(cell(0, 0)));
    g.set_end(Some(cell(2, 2)));
    let (path, effort) = g.search();
    assert_eq!(
        path,
        vec![cell(0, 1), cell(0, 2), cell(1, 2), cell(2, 2)],
        "equal f-scores are expanded in ascending row, then ascending column order"
    );
    assert_eq!(effort, 9);
}

#[test]
fn path_length_matches_bfs_oracle() {
    let cases: Vec<(usize, usize, Vec<(usize, usize)>, (usize, usize), (usize, usize))> = vec![
        (5, 5, vec![(1, 1), (1, 2), (1, 3)], (0, 0), (4, 4)),
        (4, 6, vec![], (0, 0), (3, 5)),
        (6, 6, vec![(0, 1), (1, 1), (2, 1), (3, 1), (4, 1), (4, 3), (3, 3), (2, 3), (1, 3), (5, 5 - 1)], (0, 0), (0, 5)),
        (7, 7, vec![(3, 0), (3, 1), (3, 2), (3, 4), (3, 5), (3, 6)], (0, 3), (6, 3)),
        (2, 2, vec![(0, 1)], (0, 0), (1, 1)),
    ];
    for (rows, cols, walls, s, e) in cases {
        let mut g = grid_with_walls(rows, cols, &walls);
        g.set_start(Some(cell(s.0, s.1)));
        g.set_end(Some(cell(e.0, e.1)));
        let (path, _) = g.search();
        match bfs_distance(rows, cols, &walls, s, e) {
            Some(d) => {
                assert_eq!(path.len(), d, "the path must have the shortest length");
                check_path_shape(&g, &path, cell(s.0, s.1), cell(e.0, e.1));
            }
            None => assert!(path.is_empty(), "no route exists, so the path must be empty"),
        }
    }
}

#[test]
fn recompute_stores_path_and_effort() {
    let mut g = grid_with_walls(5, 5, &[(1, 1), (1, 2), (1, 3)]);
    g.set_start(Some(cell(0, 0)));
    g.set_end(Some(cell(4, 4)));
    assert!(g.path().is_empty());
    g.recompute();
    assert_eq!(g.path().len(), 8);
    assert!(g.search_effort() > 8 && g.search_effort() <= 25);
    let (path, effort) = g.search();
    assert_eq!(g.path(), &path);
    assert_eq!(g.search_effort(), effort);
}

#[test]
fn manhattan_distance_values() {
    assert_eq!(cell(0, 0).distance(&cell(4, 4)), 8);
    assert_eq!(cell(3, 1).distance(&cell(1, 6)), 7);
    assert_eq!(cell(2, 2).distance(&cell(2, 2)), 0);
}

#[test]
fn passability_checks_bounds_and_walls() {
    let g = grid_with_walls(3, 4, &[(1, 2)]);
    assert!(g.is_passable(cell(0, 0)));
    assert!(!g.is_passable(cell(1, 2)));
    assert!(!g.is_passable(cell(3, 0)), "row out of bounds");
    assert!(!g.is_passable(cell(0, 4)), "column out of bounds");
    assert!(g.wall_at(cell(1, 2)));
    assert!(!g.wall_at(cell(1, 1)));
}
