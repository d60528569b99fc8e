use rustymaze::{
    generate, maze_fill_prim, paint, paint_markers, process_cell, Canvas, Grid, Maze, MazeError,
    Pixel, Point, Region,
};

const BLACK: Pixel = Pixel { r: 0, g: 0, b: 0 };
const WALL: Pixel = Pixel { r: 10, g: 10, b: 10 };
const ENTRY: Pixel = Pixel { r: 244, g: 244, b: 0 };
const EXIT: Pixel = Pixel { r: 0, g: 244, b: 244 };

fn deterministic_grid() -> Grid {
    let region = Region { topleft: Point { x: 0, y: 0 }, size: Point { x: 16, y: 16 } };
    let mut grid = Grid::build(region, 6, 2).unwrap();
    let order = [2usize, 0, 3, 1];
    for &ci in order.iter() {
        let cell = grid.cells[ci];
        let nbs = cell.neighbors(4, 2);
        let coins = vec![false; nbs.len()];
        process_cell(&mut grid, ci, &nbs, &coins);
    }
    grid
}

fn open_pair_count(grid: &Grid) -> usize {
    let n = grid.cells.len();
    let cx = grid.cellsx;
    let mut count: usize = 0;
    for i in 0..n {
        if i + 1 < n && (i + 1) % cx != 0 && grid.cells[i].right {
            count += 1;
        }
        if i + cx < n && grid.cells[i].bot {
            count += 1;
        }
    }
    count
}

#[test]
fn canvas_new_is_black() {
    let c = Canvas::new(5, 4);
    assert_eq!(c.width, 5);
    assert_eq!(c.height, 4);
    assert_eq!(c.pixels.len(), 20);
    for p in c.pixels.iter() {
        assert_eq!(*p, BLACK);
    }
}

#[test]
fn paint_places_exact_walls() {
    // The deterministic 2x2 grid leaves only the wall between cells 1
    // and 3 closed; with pitch 8 and passage width 6, wall pixels are
    // exactly the band y == 7, 8 <= x <= 15.
    let grid = deterministic_grid();
    let region = Region { topleft: Point { x: 0, y: 0 }, size: Point { x: 16, y: 16 } };
    let mut canvas = Canvas::new(16, 16);
    paint(&mut canvas, region, &grid, 6);
    for y in 0..16usize {
        for x in 0..16usize {
            let expect = if y == 7 && (8..=15).contains(&x) { WALL } else { BLACK };
            assert_eq!(canvas.pixels[y * 16 + x], expect);
        }
    }
}

#[test]
fn paint_is_idempotent_and_deterministic() {
    let grid = deterministic_grid();
    let region = Region { topleft: Point { x: 0, y: 0 }, size: Point { x: 16, y: 16 } };
    let mut first = Canvas::new(16, 16);
    let mut second = Canvas::new(16, 16);
    paint(&mut first, region, &grid, 6);
    paint(&mut second, region, &grid, 6);
    assert_eq!(first.pixels, second.pixels);
    // painting the already painted canvas again changes nothing
    let before = first.pixels.clone();
    paint(&mut first, region, &grid, 6);
    assert_eq!(first.pixels, before);
}

#[test]
fn markers_paint_strict_interiors() {
    let entry = Region { topleft: Point { x: 4, y: 0 }, size: Point { x: 6, y: 2 } };
    let exit = Region { topleft: Point { x: 10, y: 18 }, size: Point { x: 6, y: 2 } };
    let mut canvas = Canvas::new(20, 20);
    paint_markers(&mut canvas, entry, exit);
    for y in 0..20usize {
        for x in 0..20usize {
            let expect = if y == 1 && (5..=9).contains(&x) {
                ENTRY
            } else if y == 19 && (11..=15).contains(&x) {
                EXIT
            } else {
                BLACK
            };
            assert_eq!(canvas.pixels[y * 20 + x], expect);
        }
    }
}

#[test]
fn markers_survive_wall_paint() {
    // Entry and exit notches snapped to the image border lie outside the
    // walled region, so rasterization never overwrites their pixels,
    // whatever connectivity the random generation produced.
    let entry = Region { topleft: Point { x: 4, y: 0 }, size: Point { x: 6, y: 2 } };
    let exit = Region { topleft: Point { x: 10, y: 18 }, size: Point { x: 6, y: 2 } };
    let region = Region { topleft: Point { x: 2, y: 2 }, size: Point { x: 16, y: 16 } };
    let mut canvas = Canvas::new(20, 20);
    paint_markers(&mut canvas, entry, exit);
    let mut grid = Grid::build(region, 6, 2).unwrap();
    generate(&mut grid).unwrap();
    paint(&mut canvas, region, &grid, 6);
    for x in 5..=9usize {
        assert_eq!(canvas.pixels[1 * 20 + x], ENTRY);
    }
    for x in 11..=15usize {
        assert_eq!(canvas.pixels[19 * 20 + x], EXIT);
    }
}

#[test]
fn maze_fill_prim_completes_and_paints() {
    let entry = Region { topleft: Point { x: 4, y: 0 }, size: Point { x: 6, y: 2 } };
    let exit = Region { topleft: Point { x: 10, y: 18 }, size: Point { x: 6, y: 2 } };
    let region = Region { topleft: Point { x: 2, y: 2 }, size: Point { x: 16, y: 16 } };
    let mut maze = Maze {
        img: Canvas::new(20, 20),
        min_passage_width: 6,
        min_wall_width: 2,
        size: Point { x: 20, y: 20 },
        entry,
        exit,
    };
    let grid = maze_fill_prim(region, entry, exit, &mut maze).unwrap();
    assert!(grid.is_complete());
    assert_eq!(grid.cells.len(), 4);
    assert_eq!(open_pair_count(&grid), 3);
    // the canvas dimensions are untouched
    assert_eq!(maze.img.width, 20);
    assert_eq!(maze.img.height, 20);
}

#[test]
fn maze_fill_prim_rejects_mismatch() {
    let entry = Region { topleft: Point { x: 4, y: 0 }, size: Point { x: 6, y: 2 } };
    let exit = Region { topleft: Point { x: 10, y: 18 }, size: Point { x: 6, y: 2 } };
    let region = Region { topleft: Point { x: 0, y: 0 }, size: Point { x: 10, y: 10 } };
    let mut maze = Maze {
        img: Canvas::new(20, 20),
        min_passage_width: 6,
        min_wall_width: 2,
        size: Point { x: 20, y: 20 },
        entry,
        exit,
    };
    let before = maze.img.pixels.clone();
    let r = maze_fill_prim(region, entry, exit, &mut maze);
    assert!(matches!(r, Err(MazeError::DimensionMismatch)));
    // nothing was painted
    assert_eq!(maze.img.pixels, before);
}
