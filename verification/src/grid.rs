//! The cell model: a rectangular region flattened into a row-major array
//! of cells, each tracking a connectivity group id and four directional
//! wall-open flags.

use vstd::prelude::*;
use crate::geom::{MazeError, Region};

verus! {

/// The side of a cell through which a neighbor is reached.
#[derive(Clone, Copy, Debug, PartialEq, Eq, Structural)]
pub enum Direction {
    Up,
    Down,
    Left,
    Right,
}

/// One grid unit of the maze. `idx` is the stable row-major position,
/// `path_id` the mutable connectivity group label, and the four flags say
/// whether the wall on that side is open.
#[derive(Clone, Copy, Debug, PartialEq, Eq, Structural)]
pub struct Cell {
    pub idx: usize,
    pub path_id: usize,
    pub top: bool,
    pub bot: bool,
    pub left: bool,
    pub right: bool,
}

/// An existing neighbor of a cell: its flattened index and the direction
/// used to reach it (which decides the flag pair a merge opens).
#[derive(Clone, Copy, Debug, PartialEq, Eq, Structural)]
pub struct Neighbor {
    pub direction: Direction,
    pub cell_idx: usize,
}

/// The neighbor list of the cell at flattened index `i` in a grid of `n`
/// cells and width `cx`, in the fixed order up, down, left, right.
pub open spec fn neighbor_seq(i: int, n: int, cx: int) -> Seq<Neighbor> {
    let up = if i >= cx {
        seq![Neighbor { direction: Direction::Up, cell_idx: (i - cx) as usize }]
    } else {
        Seq::<Neighbor>::empty()
    };
    let down = if i + cx < n {
        seq![Neighbor { direction: Direction::Down, cell_idx: (i + cx) as usize }]
    } else {
        Seq::<Neighbor>::empty()
    };
    let left = if i % cx > 0 {
        seq![Neighbor { direction: Direction::Left, cell_idx: (i - 1) as usize }]
    } else {
        Seq::<Neighbor>::empty()
    };
    let right = if i < n && (i + 1) % cx > 0 {
        seq![Neighbor { direction: Direction::Right, cell_idx: (i + 1) as usize }]
    } else {
        Seq::<Neighbor>::empty()
    };
    up + down + left + right
}

impl Cell {
    /// The cell's index, group id, column and row within a grid of width
    /// `cellsx`.
    pub fn xy(&self, cellsx: usize) -> (r: (usize, usize, usize, usize))
        requires
            cellsx >= 1,
        ensures
            r.0 == self.idx,
            r.1 == self.path_id,
            r.2 == self.idx as int % cellsx as int,
            r.3 == self.idx as int / cellsx as int,
    {
        (self.idx, self.path_id, self.idx % cellsx, self.idx / cellsx)
    }

    /// The neighbors of this cell in a grid of `cellist_size` cells and
    /// width `cellsx`: up to four entries in the fixed order up, down,
    /// left, right.
    pub fn neighbors(&self, cellist_size: usize, cellsx: usize) -> (r: Vec<Neighbor>)
        requires
            cellsx >= 1,
            self.idx + cellsx <= usize::MAX,
        ensures
            r@ == neighbor_seq(self.idx as int, cellist_size as int, cellsx as int),
    {
        let mut result: Vec<Neighbor> = Vec::new();
        if self.idx >= cellsx {
            result.push(Neighbor { direction: Direction::Up, cell_idx: self.idx - cellsx });
        }
        if self.idx + cellsx < cellist_size {
            result.push(Neighbor { direction: Direction::Down, cell_idx: self.idx + cellsx });
        }
        if self.idx % cellsx > 0 {
            proof {
                assert(self.idx >= 1) by {
                    assert(0int % cellsx as int == 0);
                };
            }
            result.push(Neighbor { direction: Direction::Left, cell_idx: self.idx - 1 });
        }
        if self.idx < cellist_size && (self.idx + 1) % cellsx > 0 {
            result.push(Neighbor { direction: Direction::Right, cell_idx: self.idx + 1 });
        }
        proof {
            assert(result@ =~= neighbor_seq(
                self.idx as int,
                cellist_size as int,
                cellsx as int,
            ));
        }
        result
    }
}

/// The freshly built cell at index `i`: a singleton group with all four
/// walls closed.
pub open spec fn initial_cell(i: int) -> Cell {
    Cell { idx: i as usize, path_id: i as usize, top: false, bot: false, left: false, right: false }
}

/// The full maze grid: `cellsx * cellsy` cells in row-major order.
pub struct Grid {
    pub cellsx: usize,
    pub cellsy: usize,
    pub cells: Vec<Cell>,
}

impl Grid {
    /// The number of cells.
    pub open spec fn n(self) -> int {
        self.cells@.len() as int
    }

    /// Structural well-formedness: the cell count matches the grid
    /// dimensions, each cell records its own index, and group ids stay
    /// within the grid.
    pub open spec fn wf_basic(self) -> bool {
        &&& self.cells@.len() == self.cellsx * self.cellsy
        &&& forall|i: int| 0 <= i < self.n() ==> (#[trigger] self.cells@[i]).idx == i
        &&& forall|i: int| 0 <= i < self.n() ==> (#[trigger] self.cells@[i]).path_id < self.n()
    }

    /// The full generation invariant on this grid's cells: structural
    /// well-formedness, mirrored wall flags, open walls only within a
    /// group, the group/edge count identity, and reachability within
    /// each group.
    pub open spec fn inv(self) -> bool {
        crate::graph::cells_inv(self.cells@, self.cellsx as int, self.cellsy as int)
    }

    /// Generation is complete: a single group id spans every cell.
    pub open spec fn complete(self) -> bool {
        forall|i: int, j: int|
            0 <= i < self.n() && 0 <= j < self.n() ==> (#[trigger] self.cells@[i]).path_id == (
            #[trigger] self.cells@[j]).path_id
    }

    /// Scans the cells and reports whether one group id spans them all.
    pub fn is_complete(&self) -> (r: bool)
        ensures
            r == self.complete(),
    {
        if self.cells.len() == 0 {
            return true;
        }
        let g0 = self.cells[0].path_id;
        let mut i: usize = 1;
        while i < self.cells.len()
            invariant
                1 <= i <= self.cells@.len(),
                g0 == self.cells@[0].path_id,
                forall|k: int| 0 <= k < i ==> (#[trigger] self.cells@[k]).path_id == g0,
            decreases self.cells@.len() - i,
        {
            if self.cells[i].path_id != g0 {
                return false;
            }
            i += 1;
        }
        true
    }

    /// Divides `region`'s pixel size by the cell pitch (`passage_width +
    /// wall_width`) and allocates one closed singleton cell per grid
    /// position. Fails with `DimensionMismatch` iff the region size is
    /// not an exact multiple of the pitch on both axes.
    pub fn build(region: Region, passage_width: usize, wall_width: usize) -> (r: Result<
        Grid,
        MazeError,
    >)
        requires
            passage_width >= 1,
            wall_width >= 1,
            passage_width + wall_width <= usize::MAX,
            (region.size.x as int / (passage_width + wall_width) as int) * (region.size.y as int
                / (passage_width + wall_width) as int) <= usize::MAX,
        ensures
            ({
                let pitch = passage_width + wall_width;
                if region.size.x as int % pitch == 0 && region.size.y as int % pitch == 0 {
                    match r {
                        Ok(g) => {
                            &&& g.cellsx == region.size.x as int / pitch
                            &&& g.cellsy == region.size.y as int / pitch
                            &&& g.cells@.len() == g.cellsx * g.cellsy
                            &&& forall|i: int|
                                0 <= i < g.cells@.len() ==> g.cells@[i] == initial_cell(i)
                            &&& g.inv()
                            &&& crate::graph::edge_count(g.cells@, g.cellsx as int) == 0
                            &&& crate::graph::group_count(g.cells@) == g.cells@.len()
                        },
                        Err(_) => false,
                    }
                } else {
                    r == Err::<Grid, MazeError>(MazeError::DimensionMismatch)
                }
            }),
    {
        let pitch = passage_width + wall_width;
        if region.size.x % pitch != 0 || region.size.y % pitch != 0 {
            return Err(MazeError::DimensionMismatch);
        }
        let cellsx = region.size.x / pitch;
        let cellsy = region.size.y / pitch;
        let n = cellsx * cellsy;
        let mut cells: Vec<Cell> = Vec::new();
        let mut idx: usize = 0;
        while idx < n
            invariant
                idx <= n,
                cells@.len() == idx,
                forall|i: int| 0 <= i < idx ==> cells@[i] == initial_cell(i),
            decreases n - idx,
        {
            cells.push(
                Cell { idx, path_id: idx, top: false, bot: false, left: false, right: false },
            );
            idx += 1;
        }
        let g = Grid { cellsx, cellsy, cells };
        proof {
            crate::graph::lemma_initial_inv(g.cells@, cellsx as int, cellsy as int);
        }
        Ok(g)
    }
}

} // verus!
