use rustymaze::{generate, process_cell, Cell, Direction, Grid, MazeError, Neighbor, Point, Region};

fn open_pair_count(grid: &Grid) -> usize {
    let n = grid.cells.len();
    let cx = grid.cellsx;
    let mut count: usize = 0;
    for i in 0..n {
        if i + 1 < n && (i + 1) % cx != 0 && grid.cells[i].right {
            count += 1;
        }
        if i + cx < n && grid.cells[i].bot {
            count += 1;
        }
    }
    count
}

#[test]
fn neighbors_works() {
    let mut base = Cell {
        idx: 4 as usize,
        path_id: 1 as usize,
        top: true,
        bot: true,
        left: true,
        right: true,
    };

    assert_eq!(
        base.neighbors(50, 3),
        vec![
            Neighbor { direction: Direction::Up, cell_idx: 1 },
            Neighbor { direction: Direction::Down, cell_idx: 7 },
            Neighbor { direction: Direction::Left, cell_idx: 3 },
            Neighbor { direction: Direction::Right, cell_idx: 5 }
        ]
    );
    assert_eq!(
        base.neighbors(50, 4),
        vec![
            Neighbor { direction: Direction::Up, cell_idx: 0 },
            Neighbor { direction: Direction::Down, cell_idx: 8 },
            Neighbor { direction: Direction::Right, cell_idx: 5 }
        ]
    );
    assert_eq!(
        base.neighbors(50, 5),
        vec![
            Neighbor { direction: Direction::Down, cell_idx: 9 },
            Neighbor { direction: Direction::Left, cell_idx: 3 }
        ]
    );
    assert_eq!(
        base.neighbors(6, 6),
        vec![
            Neighbor { direction: Direction::Left, cell_idx: 3 },
            Neighbor { direction: Direction::Right, cell_idx: 5 }
        ]
    );
    base.idx = 3;
    assert_eq!(
        base.neighbors(8, 4),
        vec![
            Neighbor { direction: Direction::Down, cell_idx: 7 },
            Neighbor { direction: Direction::Left, cell_idx: 2 }
        ]
    );
    base.idx = 7;
    assert_eq!(
        base.neighbors(8, 4),
        vec![
            Neighbor { direction: Direction::Up, cell_idx: 3 },
            Neighbor { direction: Direction::Left, cell_idx: 6 }
        ]
    );
}

#[test]
fn cell_xy() {
    let cell = Cell { idx: 7, path_id: 3, top: false, bot: false, left: false, right: false };
    assert_eq!(cell.xy(4), (7, 3, 3, 1));
    assert_eq!(cell.xy(3), (7, 3, 1, 2));
}

#[test]
fn build_rejects_mismatched_region() {
    // pitch = 6 + 2 = 8, and 10 % 8 != 0
    let region = Region { topleft: Point { x: 0, y: 0 }, size: Point { x: 10, y: 10 } };
    let r = Grid::build(region, 6, 2);
    assert!(matches!(r, Err(MazeError::DimensionMismatch)));
    // one mismatched axis is enough
    let region = Region { topleft: Point { x: 0, y: 0 }, size: Point { x: 16, y: 10 } };
    assert!(matches!(Grid::build(region, 6, 2), Err(MazeError::DimensionMismatch)));
}

#[test]
fn build_makes_closed_singletons() {
    let region = Region { topleft: Point { x: 0, y: 0 }, size: Point { x: 16, y: 16 } };
    let grid = Grid::build(region, 6, 2).unwrap();
    assert_eq!(grid.cellsx, 2);
    assert_eq!(grid.cellsy, 2);
    assert_eq!(grid.cells.len(), 4);
    for (i, cell) in grid.cells.iter().enumerate() {
        assert_eq!(cell.idx, i);
        assert_eq!(cell.path_id, i);
        assert!(!cell.top && !cell.bot && !cell.left && !cell.right);
    }
    assert!(!grid.is_complete());
}

#[test]
fn deterministic_two_by_two() {
    // A fixed visit order [2, 0, 3, 1], neighbors processed in their
    // natural order (up, down, left, right), and no early stop: the
    // result is fully determined.
    let region = Region { topleft: Point { x: 0, y: 0 }, size: Point { x: 16, y: 16 } };
    let mut grid = Grid::build(region, 6, 2).unwrap();
    let order = [2usize, 0, 3, 1];
    for &ci in order.iter() {
        let cell = grid.cells[ci];
        let nbs = cell.neighbors(4, 2);
        let coins = vec![false; nbs.len()];
        process_cell(&mut grid, ci, &nbs, &coins);
    }
    // exactly one group remains
    assert!(grid.is_complete());
    let g = grid.cells[0].path_id;
    for cell in grid.cells.iter() {
        assert_eq!(cell.path_id, g);
    }
    // exactly 3 open wall pairs connect the 4 cells: a spanning tree
    assert_eq!(open_pair_count(&grid), 3);
    // the exact pairs: 2-0 (up), 2-3 (right), 0-1 (right)
    assert!(grid.cells[2].top && grid.cells[0].bot);
    assert!(grid.cells[2].right && grid.cells[3].left);
    assert!(grid.cells[0].right && grid.cells[1].left);
    // and nothing else is open
    assert!(!grid.cells[0].top && !grid.cells[0].left);
    assert!(!grid.cells[1].top && !grid.cells[1].bot && !grid.cells[1].right);
    assert!(!grid.cells[2].bot && !grid.cells[2].left);
    assert!(!grid.cells[3].top && !grid.cells[3].bot && !grid.cells[3].right);
}

#[test]
fn generate_grows_spanning_tree() {
    // 4 x 3 cells; generation is randomized but always ends complete
    // with exactly n - 1 open wall pairs.
    let region = Region { topleft: Point { x: 0, y: 0 }, size: Point { x: 32, y: 24 } };
    let mut grid = Grid::build(region, 6, 2).unwrap();
    let r = generate(&mut grid);
    assert_eq!(r, Ok(()));
    assert!(grid.is_complete());
    assert_eq!(grid.cells.len(), 12);
    assert_eq!(open_pair_count(&grid), 11);
}

#[test]
fn mirroring_holds_after_generation() {
    let region = Region { topleft: Point { x: 0, y: 0 }, size: Point { x: 40, y: 40 } };
    let mut grid = Grid::build(region, 6, 2).unwrap();
    generate(&mut grid).unwrap();
    let n = grid.cells.len();
    let cx = grid.cellsx;
    for i in 0..n {
        if i + 1 < n && (i + 1) % cx != 0 {
            assert_eq!(grid.cells[i].right, grid.cells[i + 1].left);
        }
        if i + cx < n {
            assert_eq!(grid.cells[i].bot, grid.cells[i + cx].top);
        }
    }
}
