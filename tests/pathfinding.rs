use astar_grid::cell::{get_neighbors, heuristic, Cell};
use astar_grid::frontier::{Frontier, SearchNode};
use astar_grid::grid::{Grid, GridError, Tile};
use astar_grid::search::{compute_path, PathResult};

fn c(col: i32, row: i32) -> Cell {
    Cell::new(col, row)
}

fn plane_grid() -> Grid {
    Grid::new(24, 14)
}

fn on_path_cells(grid: &Grid) -> Vec<Cell> {
    let mut out = Vec::new();
    for row in 0..grid.height() {
        for col in 0..grid.width() {
            if grid.get_tile(c(col, row)) == Ok(Tile::OnPath) {
                out.push(c(col, row));
            }
        }
    }
    out
}

fn path_of(r: &PathResult) -> Vec<Cell> {
    match r {
        PathResult::Success(p) => p.clone(),
        PathResult::NoPath => panic!("expected a path"),
    }
}

fn manhattan(a: Cell, b: Cell) -> usize {
    ((a.col - b.col).abs() + (a.row - b.row).abs()) as usize
}

#[test]
fn scenario_short_row_path() {
    let mut grid = plane_grid();
    let unset = c(-1, -1);
    assert_eq!(grid.reassign(unset, c(0, 0), Tile::Start), Ok(()));
    assert_eq!(grid.reassign(unset, c(3, 0), Tile::Target), Ok(()));
    let r = compute_path(&mut grid, c(0, 0), c(3, 0));
    assert!(r.is_success());
    assert_eq!(r.edge_count(), Some(3));
    assert_eq!(path_of(&r), vec![c(0, 0), c(1, 0), c(2, 0), c(3, 0)]);
    assert_eq!(on_path_cells(&grid), vec![c(1, 0), c(2, 0)]);
    assert_eq!(grid.get_tile(c(0, 0)), Ok(Tile::Start));
    assert_eq!(grid.get_tile(c(3, 0)), Ok(Tile::Target));
}

#[test]
fn scenario_reassign_start() {
    let mut grid = plane_grid();
    let unset = c(-1, -1);
    grid.reassign(unset, c(0, 0), Tile::Start).unwrap();
    grid.reassign(unset, c(3, 0), Tile::Target).unwrap();
    compute_path(&mut grid, c(0, 0), c(3, 0));
    assert_eq!(on_path_cells(&grid).len(), 2);

    assert_eq!(grid.reassign(c(0, 0), c(5, 5), Tile::Start), Ok(()));
    assert_eq!(grid.get_tile(c(0, 0)), Ok(Tile::Empty));
    assert_eq!(grid.get_tile(c(5, 5)), Ok(Tile::Start));
    let r = compute_path(&mut grid, c(5, 5), c(3, 0));
    assert_eq!(r.edge_count(), Some(7));
    let marked = on_path_cells(&grid);
    assert_eq!(marked.len(), 6);
    assert!(!marked.contains(&c(1, 0)));
    assert!(!marked.contains(&c(2, 0)));
    for cell in &marked {
        assert!(path_of(&r).contains(cell));
    }
    assert_eq!(grid.get_tile(c(5, 5)), Ok(Tile::Start));
    assert_eq!(grid.get_tile(c(3, 0)), Ok(Tile::Target));
}

#[test]
fn scenario_straight_down_column() {
    let mut grid = plane_grid();
    let r = compute_path(&mut grid, c(0, 0), c(0, 13));
    let p = path_of(&r);
    assert_eq!(p.len(), 14);
    for (i, cell) in p.iter().enumerate() {
        assert_eq!(*cell, c(0, i as i32));
    }
    let marked = on_path_cells(&grid);
    assert_eq!(marked.len(), 12);
    for cell in marked {
        assert_eq!(cell.col, 0);
    }
}

#[test]
fn degenerate_start_equals_target() {
    let mut grid = plane_grid();
    grid.reassign(c(-1, -1), c(4, 4), Tile::Start).unwrap();
    let r = compute_path(&mut grid, c(4, 4), c(4, 4));
    assert!(r.is_success());
    assert_eq!(r.edge_count(), Some(0));
    assert_eq!(path_of(&r), vec![c(4, 4)]);
    assert!(on_path_cells(&grid).is_empty());
    assert_eq!(grid.get_tile(c(4, 4)), Ok(Tile::Start));
}

#[test]
fn unreachable_target_outside_grid() {
    let mut grid = plane_grid();
    grid.reassign(c(-1, -1), c(2, 2), Tile::Start).unwrap();
    compute_path(&mut grid, c(2, 2), c(2, 5));
    let before = on_path_cells(&grid);
    assert_eq!(before.len(), 2);
    let r = compute_path(&mut grid, c(2, 2), c(24, 0));
    assert!(!r.is_success());
    assert_eq!(r.edge_count(), None);
    assert_eq!(on_path_cells(&grid), before);
    let r = compute_path(&mut grid, c(2, 2), c(-1, -1));
    assert!(matches!(r, PathResult::NoPath));
    assert_eq!(grid.get_tile(c(2, 2)), Ok(Tile::Start));
}

#[test]
fn unset_start_is_no_path() {
    let mut grid = plane_grid();
    let r = compute_path(&mut grid, c(-1, -1), c(3, 3));
    assert!(matches!(r, PathResult::NoPath));
    assert!(on_path_cells(&grid).is_empty());
}

#[test]
fn recompute_is_deterministic() {
    let mut grid = plane_grid();
    let first = path_of(&compute_path(&mut grid, c(1, 2), c(17, 11)));
    let marks = on_path_cells(&grid);
    let second = path_of(&compute_path(&mut grid, c(1, 2), c(17, 11)));
    assert_eq!(first, second);
    assert_eq!(marks, on_path_cells(&grid));
}

#[test]
fn paths_are_shortest_and_connected() {
    let pairs = [
        (c(0, 0), c(23, 13)),
        (c(23, 0), c(0, 13)),
        (c(10, 7), c(3, 2)),
        (c(5, 13), c(5, 0)),
        (c(0, 6), c(23, 6)),
    ];
    for (s, t) in pairs {
        let mut grid = plane_grid();
        let p = path_of(&compute_path(&mut grid, s, t));
        assert_eq!(p.len() - 1, manhattan(s, t));
        assert_eq!(p[0], s);
        assert_eq!(*p.last().unwrap(), t);
        for w in p.windows(2) {
            assert_eq!(manhattan(w[0], w[1]), 1);
        }
        assert_eq!(on_path_cells(&grid).len(), p.len() - 2);
    }
}

#[test]
fn path_keeps_start_and_target_anchors() {
    let mut grid = Grid::new(5, 1);
    grid.set_tile(c(2, 0), Tile::Target).unwrap();
    let r = compute_path(&mut grid, c(0, 0), c(4, 0));
    assert_eq!(r.edge_count(), Some(4));
    assert_eq!(grid.get_tile(c(2, 0)), Ok(Tile::Target));
    assert_eq!(on_path_cells(&grid), vec![c(1, 0), c(3, 0)]);
}

#[test]
fn heuristic_is_manhattan() {
    assert_eq!(heuristic(c(0, 0), c(3, 4)), 7);
    assert_eq!(heuristic(c(3, 4), c(0, 0)), 7);
    assert_eq!(heuristic(c(5, 5), c(5, 5)), 0);
    assert_eq!(heuristic(c(-1, -1), c(2, 3)), 7);
}

#[test]
fn heuristic_equals_path_cost_on_open_grid() {
    let pairs = [(c(0, 0), c(7, 3)), (c(12, 9), c(2, 1)), (c(4, 4), c(4, 10))];
    for (a, b) in pairs {
        let mut grid = plane_grid();
        let r = compute_path(&mut grid, a, b);
        assert_eq!(r.edge_count(), Some(heuristic(a, b) as usize));
    }
}

#[test]
fn neighbors_in_corner_and_middle() {
    assert_eq!(get_neighbors(c(0, 0), 24, 14), vec![c(1, 0), c(0, 1)]);
    assert_eq!(get_neighbors(c(23, 13), 24, 14), vec![c(23, 12), c(22, 13)]);
    assert_eq!(
        get_neighbors(c(5, 5), 24, 14),
        vec![c(5, 4), c(4, 5), c(6, 5), c(5, 6)]
    );
    assert!(get_neighbors(c(0, 0), 1, 1).is_empty());
}

#[test]
fn tile_access_is_bounds_checked() {
    let mut grid = plane_grid();
    assert_eq!(grid.get_tile(c(24, 0)), Err(GridError::OutOfBounds));
    assert_eq!(grid.get_tile(c(0, 14)), Err(GridError::OutOfBounds));
    assert_eq!(grid.get_tile(c(-1, 0)), Err(GridError::OutOfBounds));
    assert_eq!(grid.set_tile(c(0, -1), Tile::Start), Err(GridError::OutOfBounds));
    assert_eq!(grid.set_tile(c(23, 13), Tile::Target), Ok(()));
    assert_eq!(grid.get_tile(c(23, 13)), Ok(Tile::Target));
    assert_eq!(grid.get_tile(c(0, 0)), Ok(Tile::Empty));
}

#[test]
fn reassign_outside_grid_changes_nothing() {
    let mut grid = plane_grid();
    grid.reassign(c(-1, -1), c(1, 1), Tile::Start).unwrap();
    assert_eq!(grid.reassign(c(1, 1), c(30, 1), Tile::Start), Err(GridError::OutOfBounds));
    assert_eq!(grid.get_tile(c(1, 1)), Ok(Tile::Start));
}

#[test]
fn clear_classification_only_touches_kind() {
    let mut grid = plane_grid();
    grid.set_tile(c(0, 0), Tile::Start).unwrap();
    grid.set_tile(c(1, 0), Tile::OnPath).unwrap();
    grid.set_tile(c(2, 0), Tile::OnPath).unwrap();
    grid.set_tile(c(3, 0), Tile::Target).unwrap();
    grid.clear_classification(Tile::OnPath);
    assert_eq!(grid.get_tile(c(0, 0)), Ok(Tile::Start));
    assert_eq!(grid.get_tile(c(1, 0)), Ok(Tile::Empty));
    assert_eq!(grid.get_tile(c(2, 0)), Ok(Tile::Empty));
    assert_eq!(grid.get_tile(c(3, 0)), Ok(Tile::Target));
}

#[test]
fn frontier_pops_least_priority_first() {
    let mut f = Frontier::new();
    assert!(f.is_empty());
    assert_eq!(f.pop_min(), None);
    f.push(SearchNode { cell: c(0, 0), priority: 5 });
    f.push(SearchNode { cell: c(1, 0), priority: 2 });
    f.push(SearchNode { cell: c(2, 0), priority: 9 });
    f.push(SearchNode { cell: c(1, 0), priority: 2 });
    assert_eq!(f.len(), 4);
    assert_eq!(f.pop_min().map(|n| n.priority), Some(2));
    assert_eq!(f.pop_min().map(|n| n.priority), Some(2));
    assert_eq!(f.pop_min(), Some(SearchNode { cell: c(0, 0), priority: 5 }));
    assert_eq!(f.pop_min(), Some(SearchNode { cell: c(2, 0), priority: 9 }));
    assert!(f.is_empty());
}
