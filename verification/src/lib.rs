//! A verified maze generator.
//!
//! A rectangular grid of cells is grown into a spanning tree over grid
//! adjacency (every cell reachable, no cycles), then rasterized into a
//! pixel canvas with wall and passage bands and entry/exit markers.

pub mod geom;
pub mod graph;
pub mod grid;
pub mod maze;
pub mod raster;

pub use geom::{MazeError, Point, Region};
pub use grid::{Cell, Direction, Grid, Neighbor};
pub use maze::{generate, generate_pass, open_wall, process_cell};
pub use raster::{maze_fill_prim, paint, paint_markers, Canvas, Maze, Pixel};
