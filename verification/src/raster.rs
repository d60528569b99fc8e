//! The rasterizer: maps cell connectivity plus the fixed cell pitch onto
//! a pixel canvas, painting wall pixels where no opening exists and
//! leaving passage pixels untouched, with entry/exit notches painted as
//! a separate overlay pass.

use vstd::prelude::*;
use crate::geom::{MazeError, Point, Region};
use crate::grid::Grid;

verus! {

/// One RGB pixel.
#[derive(Clone, Copy, Debug, PartialEq, Eq, Structural)]
pub struct Pixel {
    pub r: u8,
    pub g: u8,
    pub b: u8,
}

/// The background color of a fresh canvas.
pub open spec fn black() -> Pixel {
    Pixel { r: 0, g: 0, b: 0 }
}

/// The color painted on wall pixels.
pub open spec fn wall_color() -> Pixel {
    Pixel { r: 10, g: 10, b: 10 }
}

/// The marker color of the entry notch.
pub open spec fn entry_color() -> Pixel {
    Pixel { r: 244, g: 244, b: 0 }
}

/// The marker color of the exit notch.
pub open spec fn exit_color() -> Pixel {
    Pixel { r: 0, g: 244, b: 244 }
}

/// An owned flat pixel buffer in row-major order: the pixel at `(x, y)`
/// sits at index `y * width + x`.
pub struct Canvas {
    pub width: usize,
    pub height: usize,
    pub pixels: Vec<Pixel>,
}

impl Canvas {
    /// The buffer holds exactly one pixel per coordinate.
    pub open spec fn wf(self) -> bool {
        self.pixels@.len() == self.width * self.height
    }

    /// The pixel at `(x, y)`.
    pub open spec fn pix(self, x: int, y: int) -> Pixel {
        self.pixels@[y * self.width + x]
    }

    /// A fresh all-black canvas of the given dimensions.
    pub fn new(width: usize, height: usize) -> (r: Canvas)
        requires
            width * height <= usize::MAX,
        ensures
            r.wf(),
            r.width == width,
            r.height == height,
            forall|k: int| 0 <= k < r.pixels@.len() ==> r.pixels@[k] == black(),
    {
        let n = width * height;
        let mut pixels: Vec<Pixel> = Vec::new();
        let mut i: usize = 0;
        while i < n
            invariant
                i <= n,
                pixels@.len() == i,
                forall|k: int| 0 <= k < i ==> pixels@[k] == black(),
            decreases n - i,
        {
            pixels.push(Pixel { r: 0, g: 0, b: 0 });
            i = i + 1;
        }
        Canvas { width, height, pixels }
    }
}

/// The pixel at `(x, y)` belongs to a wall band: it lies strictly inside
/// the walled region, its offset within its cell exceeds the passage
/// width on an axis, the owning cell's wall on that side is closed, and
/// the cell is not in the last column (resp. row).
pub open spec fn wall_at(g: Grid, region: Region, passage_width: int, x: int, y: int) -> bool {
    let cw = region.size.x as int / g.cellsx as int;
    let ch = region.size.y as int / g.cellsy as int;
    let rx = x - region.topleft.x;
    let ry = y - region.topleft.y;
    let col = rx / cw;
    let colo = rx % cw;
    let row = ry / ch;
    let rowo = ry % ch;
    let cell = g.cells@[col + row * g.cellsx];
    region.interior_xy(x, y) && ((colo > passage_width && !cell.right && col < g.cellsx - 1) || (
    rowo > passage_width && !cell.bot && row < g.cellsy - 1))
}

/// The pixel buffer after rasterizing `g` over `region`: wall-band
/// pixels take the wall color, every other pixel keeps its old value.
pub open spec fn painted(
    pix: Seq<Pixel>,
    w: int,
    g: Grid,
    region: Region,
    passage_width: int,
) -> Seq<Pixel> {
    Seq::new(
        pix.len(),
        |k: int|
            if wall_at(g, region, passage_width, k % w, k / w) {
                wall_color()
            } else {
                pix[k]
            },
    )
}

/// The pixel buffer after the entry/exit overlay pass: pixels strictly
/// inside the exit notch take the exit color, remaining pixels strictly
/// inside the entry notch take the entry color, all others keep their
/// old value.
pub open spec fn marked(
    pix: Seq<Pixel>,
    w: int,
    entry: Region,
    exit: Region,
) -> Seq<Pixel> {
    Seq::new(
        pix.len(),
        |k: int|
            if exit.interior_xy(k % w, k / w) {
                exit_color()
            } else if entry.interior_xy(k % w, k / w) {
                entry_color()
            } else {
                pix[k]
            },
    )
}

/// Division stays under `b` when the dividend stays under `b * c`.
proof fn lemma_div_bound(a: int, b: int, c: int)
    requires
        0 <= a,
        a < b * c,
        c >= 1,
    ensures
        0 <= a / c < b,
{
    vstd::arithmetic::div_mod::lemma_fundamental_div_mod(a, c);
    if a / c < 0 {
        assert(c * (a / c) <= c * (-1)) by (nonlinear_arith)
            requires
                c >= 1,
                a / c <= -1,
        ;
    }
    if a / c >= b {
        assert(c * (a / c) >= c * b) by (nonlinear_arith)
            requires
                c >= 1,
                a / c >= b,
        ;
        assert(c * b == b * c) by (nonlinear_arith);
    }
}

/// A row-major index built from in-range coordinates stays in range.
proof fn lemma_row_major_bound(x: int, y: int, w: int, h: int)
    requires
        0 <= x < w,
        0 <= y < h,
    ensures
        0 <= y * w + x < h * w,
        (y * w + x) % w == x,
        (y * w + x) / w == y,
{
    assert(y * w + x < h * w) by (nonlinear_arith)
        requires
            0 <= x < w,
            0 <= y < h,
    ;
    assert(y * w >= 0) by (nonlinear_arith)
        requires
            0 <= y,
            0 < w,
    ;
    vstd::arithmetic::div_mod::lemma_fundamental_div_mod_converse(y * w + x, w, y, x);
}

/// Paints the wall bands of the finished grid `grid` into `canvas` over
/// `region`, in place: a pixel takes the wall color iff `wall_at` says
/// so, and every other pixel of the canvas is left untouched.
pub fn paint(canvas: &mut Canvas, region: Region, grid: &Grid, passage_width: usize)
    requires
        old(canvas).wf(),
        grid.inv(),
        grid.cellsx >= 1,
        grid.cellsy >= 1,
        region.fits(),
        region.size.x as int % grid.cellsx as int == 0,
        region.size.y as int % grid.cellsy as int == 0,
        region.size.x >= grid.cellsx,
        region.size.y >= grid.cellsy,
    ensures
        final(canvas).wf(),
        final(canvas).width == old(canvas).width,
        final(canvas).height == old(canvas).height,
        final(canvas).pixels@ == painted(
            old(canvas).pixels@,
            old(canvas).width as int,
            *grid,
            region,
            passage_width as int,
        ),
{
    let ghost p0 = canvas.pixels@;
    let ghost target = painted(p0, canvas.width as int, *grid, region, passage_width as int);
    let w = canvas.width;
    let h = canvas.height;
    let len = canvas.pixels.len();
    let ncells = grid.cells.len();
    let cw = region.size.x / grid.cellsx;
    let ch = region.size.y / grid.cellsy;
    proof {
        vstd::arithmetic::div_mod::lemma_fundamental_div_mod(
            region.size.x as int,
            grid.cellsx as int,
        );
        vstd::arithmetic::div_mod::lemma_fundamental_div_mod(
            region.size.y as int,
            grid.cellsy as int,
        );
        assert(region.size.x == grid.cellsx * cw);
        assert(region.size.y == grid.cellsy * ch);
        assert(cw >= 1) by (nonlinear_arith)
            requires
                grid.cellsx >= 1,
                region.size.x >= grid.cellsx,
                region.size.x == grid.cellsx * cw,
        ;
        assert(ch >= 1) by (nonlinear_arith)
            requires
                grid.cellsy >= 1,
                region.size.y >= grid.cellsy,
                region.size.y == grid.cellsy * ch,
        ;
        assert(h * w == w * h) by (nonlinear_arith);
    }
    let mut y: usize = 0;
    while y < h
        invariant
            canvas.width == w,
            canvas.height == h,
            canvas.pixels@.len() == p0.len(),
            p0.len() == w * h,
            p0.len() <= usize::MAX,
            h * w == w * h,
            target == painted(p0, w as int, *grid, region, passage_width as int),
            target.len() == p0.len(),
            y <= h,
            grid.inv(),
            grid.cellsx >= 1,
            grid.cellsy >= 1,
            region.fits(),
            cw >= 1,
            ch >= 1,
            region.size.x == grid.cellsx * cw,
            region.size.y == grid.cellsy * ch,
            cw == region.size.x as int / grid.cellsx as int,
            ch == region.size.y as int / grid.cellsy as int,
            ncells == grid.cells@.len(),
            forall|k: int| 0 <= k < y * w ==> canvas.pixels@[k] == target[k],
            forall|k: int| y * w <= k < p0.len() ==> canvas.pixels@[k] == p0[k],
        decreases h - y,
    {
        let mut x: usize = 0;
        proof {
            assert(y * w + w <= h * w) by (nonlinear_arith)
                requires
                    y < h,
                    w >= 0,
            ;
            assert((y + 1) * w == y * w + w) by (nonlinear_arith);
        }
        while x < w
            invariant
                canvas.width == w,
                canvas.height == h,
                canvas.pixels@.len() == p0.len(),
                p0.len() == w * h,
                p0.len() <= usize::MAX,
                h * w == w * h,
            p0.len() <= usize::MAX,
            h * w == w * h,
                target == painted(p0, w as int, *grid, region, passage_width as int),
                target.len() == p0.len(),
                y < h,
                x <= w,
                y * w + w <= h * w,
                grid.inv(),
                grid.cellsx >= 1,
                grid.cellsy >= 1,
                region.fits(),
                cw >= 1,
                ch >= 1,
                region.size.x == grid.cellsx * cw,
                region.size.y == grid.cellsy * ch,
                cw == region.size.x as int / grid.cellsx as int,
                ch == region.size.y as int / grid.cellsy as int,
                ncells == grid.cells@.len(),
                forall|k: int| 0 <= k < y * w + x ==> canvas.pixels@[k] == target[k],
                forall|k: int| y * w + x <= k < p0.len() ==> canvas.pixels@[k] == p0[k],
            decreases w - x,
        {
            proof {
                lemma_row_major_bound(x as int, y as int, w as int, h as int);
            }
            let k = y * w + x;
            let mut value = canvas.pixels[k];
            if region.intersect(Point { x, y }) {
                let rx = x - region.topleft.x;
                let ry = y - region.topleft.y;
                let col = rx / cw;
                let colo = rx % cw;
                let row = ry / ch;
                let rowo = ry % ch;
                proof {
                    lemma_div_bound(rx as int, grid.cellsx as int, cw as int);
                    lemma_div_bound(ry as int, grid.cellsy as int, ch as int);
                    assert(grid.cells@.len() == grid.cellsx * grid.cellsy);
                    assert(ncells == grid.cells@.len());
                    assert(col + row * grid.cellsx < grid.cellsx * grid.cellsy)
                        by (nonlinear_arith)
                        requires
                            0 <= col < grid.cellsx,
                            0 <= row < grid.cellsy,
                    ;
                    assert(row * grid.cellsx >= 0) by (nonlinear_arith)
                        requires
                            row >= 0,
                            grid.cellsx >= 0,
                    ;
                }
                let cell = grid.cells[col + row * grid.cellsx];
                let mut is_wall = false;
                if colo > passage_width && !cell.right && col < grid.cellsx - 1 {
                    is_wall = true;
                }
                if rowo > passage_width && !cell.bot && row < grid.cellsy - 1 {
                    is_wall = true;
                }
                if is_wall {
                    value = Pixel { r: 10, g: 10, b: 10 };
                }
                proof {
                    assert(is_wall == wall_at(*grid, region, passage_width as int, x as int, y as int));
                }
            } else {
                proof {
                    assert(!wall_at(*grid, region, passage_width as int, x as int, y as int));
                }
            }
            canvas.pixels.set(k, value);
            proof {
                assert(canvas.pixels@[k as int] == target[k as int]);
            }
            x = x + 1;
        }
        y = y + 1;
    }
    proof {
        assert(y * w == p0.len()) by (nonlinear_arith)
            requires
                y == h,
                p0.len() == w * h,
                p0.len() <= usize::MAX,
                h * w == w * h,
            p0.len() <= usize::MAX,
            h * w == w * h,
        ;
        assert(canvas.pixels@ =~= target);
    }
}

/// Paints the entry and exit notches into `canvas`, in place: the strict
/// interior of `exit` takes the exit color, the remaining strict
/// interior of `entry` takes the entry color, and every other pixel is
/// left untouched.
pub fn paint_markers(canvas: &mut Canvas, entry: Region, exit: Region)
    requires
        old(canvas).wf(),
        entry.fits(),
        exit.fits(),
    ensures
        final(canvas).wf(),
        final(canvas).width == old(canvas).width,
        final(canvas).height == old(canvas).height,
        final(canvas).pixels@ == marked(old(canvas).pixels@, old(canvas).width as int, entry, exit),
{
    let ghost p0 = canvas.pixels@;
    let ghost target = marked(p0, canvas.width as int, entry, exit);
    let w = canvas.width;
    let h = canvas.height;
    let len = canvas.pixels.len();
    proof {
        assert(h * w == w * h) by (nonlinear_arith);
    }
    let mut y: usize = 0;
    while y < h
        invariant
            canvas.width == w,
            canvas.height == h,
            canvas.pixels@.len() == p0.len(),
            p0.len() == w * h,
            p0.len() <= usize::MAX,
            h * w == w * h,
            target == marked(p0, w as int, entry, exit),
            target.len() == p0.len(),
            y <= h,
            entry.fits(),
            exit.fits(),
            forall|k: int| 0 <= k < y * w ==> canvas.pixels@[k] == target[k],
            forall|k: int| y * w <= k < p0.len() ==> canvas.pixels@[k] == p0[k],
        decreases h - y,
    {
        let mut x: usize = 0;
        proof {
            assert(y * w + w <= h * w) by (nonlinear_arith)
                requires
                    y < h,
                    w >= 0,
            ;
            assert((y + 1) * w == y * w + w) by (nonlinear_arith);
        }
        while x < w
            invariant
                canvas.width == w,
                canvas.height == h,
                canvas.pixels@.len() == p0.len(),
                p0.len() == w * h,
                p0.len() <= usize::MAX,
                h * w == w * h,
            p0.len() <= usize::MAX,
            h * w == w * h,
                target == marked(p0, w as int, entry, exit),
                target.len() == p0.len(),
                y < h,
                x <= w,
                y * w + w <= h * w,
                entry.fits(),
                exit.fits(),
                forall|k: int| 0 <= k < y * w + x ==> canvas.pixels@[k] == target[k],
                forall|k: int| y * w + x <= k < p0.len() ==> canvas.pixels@[k] == p0[k],
            decreases w - x,
        {
            proof {
                lemma_row_major_bound(x as int, y as int, w as int, h as int);
            }
            let k = y * w + x;
            let mut value = canvas.pixels[k];
            if exit.intersect(Point { x, y }) {
                value = Pixel { r: 0, g: 244, b: 244 };
            } else if entry.intersect(Point { x, y }) {
                value = Pixel { r: 244, g: 244, b: 0 };
            }
            canvas.pixels.set(k, value);
            x = x + 1;
        }
        y = y + 1;
    }
    proof {
        assert(y * w == p0.len()) by (nonlinear_arith)
            requires
                y == h,
                p0.len() == w * h,
                p0.len() <= usize::MAX,
                h * w == w * h,
            p0.len() <= usize::MAX,
            h * w == w * h,
        ;
        assert(canvas.pixels@ =~= target);
    }
}

/// The maze under construction: the pixel canvas, the fixed cell pitch
/// configuration, the image size, and the entry/exit notches.
pub struct Maze {
    pub img: Canvas,
    pub min_passage_width: usize,
    pub min_wall_width: usize,
    pub size: Point,
    pub entry: Region,
    pub exit: Region,
}

/// Builds a grid over `region` from the maze's cell pitch, grows it into
/// a single connected, cycle-free group, and rasterizes its walls into
/// the maze's canvas. Fails with `DimensionMismatch` iff the region size
/// is not an exact multiple of the pitch on both axes, leaving the
/// canvas untouched. `entry` and `exit` are accepted alongside the
/// region but are not consulted here: the notch overlay is the separate
/// `paint_markers` pass, and notches on the image border lie outside the
/// walled region, which wall painting never leaves.
#[allow(unused_variables)]
pub fn maze_fill_prim(region: Region, entry: Region, exit: Region, maze: &mut Maze) -> (r: Result<
    Grid,
    MazeError,
>)
    requires
        old(maze).img.wf(),
        old(maze).min_passage_width >= 1,
        old(maze).min_wall_width >= 1,
        old(maze).min_passage_width + old(maze).min_wall_width <= usize::MAX,
        region.fits(),
        region.size.x >= 1,
        region.size.y >= 1,
        ({
            let pitch = (old(maze).min_passage_width + old(maze).min_wall_width) as int;
            (region.size.x as int / pitch) * (region.size.y as int / pitch) + region.size.x as int
                / pitch <= usize::MAX
        }),
    ensures
        final(maze).img.wf(),
        final(maze).img.width == old(maze).img.width,
        final(maze).img.height == old(maze).img.height,
        final(maze).min_passage_width == old(maze).min_passage_width,
        final(maze).min_wall_width == old(maze).min_wall_width,
        final(maze).size == old(maze).size,
        final(maze).entry == old(maze).entry,
        final(maze).exit == old(maze).exit,
        ({
            let pitch = (old(maze).min_passage_width + old(maze).min_wall_width) as int;
            if region.size.x as int % pitch == 0 && region.size.y as int % pitch == 0 {
                match r {
                    Ok(g) => {
                        &&& g.inv()
                        &&& g.complete()
                        &&& g.cellsx == region.size.x as int / pitch
                        &&& g.cellsy == region.size.y as int / pitch
                        &&& g.cells@.len() == g.cellsx * g.cellsy
                        &&& g.cells@.len() >= 1
                        &&& crate::graph::edge_count(g.cells@, g.cellsx as int) == g.cells@.len()
                            - 1
                        &&& final(maze).img.pixels@ == painted(
                            old(maze).img.pixels@,
                            old(maze).img.width as int,
                            g,
                            region,
                            old(maze).min_passage_width as int,
                        )
                    },
                    Err(_) => false,
                }
            } else {
                &&& r == Err::<Grid, MazeError>(MazeError::DimensionMismatch)
                &&& final(maze).img.pixels@ == old(maze).img.pixels@
            }
        }),
{
    let pw = maze.min_passage_width;
    let ww = maze.min_wall_width;
    let pitch = pw + ww;
    let mut grid = match Grid::build(region, pw, ww) {
        Ok(g) => g,
        Err(e) => {
            return Err(e);
        },
    };
    proof {
        vstd::arithmetic::div_mod::lemma_fundamental_div_mod(region.size.x as int, pitch as int);
        vstd::arithmetic::div_mod::lemma_fundamental_div_mod(region.size.y as int, pitch as int);
        assert(region.size.x == pitch * grid.cellsx);
        assert(region.size.y == pitch * grid.cellsy);
        assert(grid.cellsx >= 1) by (nonlinear_arith)
            requires
                region.size.x >= 1,
                pitch >= 1,
                region.size.x == pitch * grid.cellsx,
        ;
        assert(grid.cellsy >= 1) by (nonlinear_arith)
            requires
                region.size.y >= 1,
                pitch >= 1,
                region.size.y == pitch * grid.cellsy,
        ;
    }
    match crate::maze::generate(&mut grid) {
        Ok(u) => u,
        Err(e) => {
            return Err(e);
        },
    };
    proof {
        vstd::arithmetic::div_mod::lemma_mod_multiples_basic(pitch as int, grid.cellsx as int);
        vstd::arithmetic::div_mod::lemma_mod_multiples_basic(pitch as int, grid.cellsy as int);
        assert(region.size.x == pitch * grid.cellsx);
        assert(pitch * grid.cellsx == grid.cellsx * pitch) by (nonlinear_arith);
        assert(pitch * grid.cellsy == grid.cellsy * pitch) by (nonlinear_arith);
        assert(region.size.x as int % grid.cellsx as int == 0);
        assert(region.size.y as int % grid.cellsy as int == 0);
        assert(region.size.x >= grid.cellsx) by (nonlinear_arith)
            requires
                pitch >= 1,
                grid.cellsx >= 0,
                region.size.x == pitch * grid.cellsx,
        ;
        assert(region.size.y >= grid.cellsy) by (nonlinear_arith)
            requires
                pitch >= 1,
                grid.cellsy >= 0,
                region.size.y == pitch * grid.cellsy,
        ;
    }
    paint(&mut maze.img, region, &grid, pw);
    proof {
        assert(grid.cells@.len() >= 1) by (nonlinear_arith)
            requires
                grid.cells@.len() == grid.cellsx * grid.cellsy,
                grid.cellsx >= 1,
                grid.cellsy >= 1,
        ;
        crate::graph::lemma_complete_spanning_tree(
            grid.cells@,
            grid.cellsx as int,
            grid.cellsy as int,
        );
    }
    Ok(grid)
}

/// Rasterization is idempotent: wall placement depends only on the grid
/// and the geometry, never on the canvas contents, so painting an
/// already painted buffer changes nothing, and two paints of the same
/// finished grid from the same starting buffer are pixel-identical.
pub proof fn lemma_paint_idempotent(
    pix: Seq<Pixel>,
    w: int,
    g: Grid,
    region: Region,
    passage_width: int,
)
    ensures
        painted(painted(pix, w, g, region, passage_width), w, g, region, passage_width) == painted(
            pix,
            w,
            g,
            region,
            passage_width,
        ),
{
    assert(painted(painted(pix, w, g, region, passage_width), w, g, region, passage_width)
        =~= painted(pix, w, g, region, passage_width));
}

/// Wall painting never reaches outside the walled region: a pixel whose
/// coordinates lie outside `region`'s strict interior keeps its value.
pub proof fn lemma_paint_preserves_outside(
    pix: Seq<Pixel>,
    w: int,
    g: Grid,
    region: Region,
    passage_width: int,
    k: int,
)
    requires
        0 <= k < pix.len(),
        !region.interior_xy(k % w, k / w),
    ensures
        painted(pix, w, g, region, passage_width)[k] == pix[k],
{
}

/// An entry or exit notch snapped to an image border lies entirely
/// outside the walled region's strict interior: the notch stops at the
/// region's inset on one side (or starts at it on the far side), so no
/// pixel strictly inside the notch is strictly inside the region.
pub proof fn lemma_border_notch_disjoint(strip: Region, region: Region)
    requires
        strip.topleft.x + strip.size.x <= region.topleft.x + 1 || strip.topleft.y + strip.size.y
            <= region.topleft.y + 1 || strip.topleft.x + 1 >= region.topleft.x + region.size.x
            || strip.topleft.y + 1 >= region.topleft.y + region.size.y,
    ensures
        forall|a: int, b: int| strip.interior_xy(a, b) ==> !region.interior_xy(a, b),
{
}

/// Entry and exit pixels survive rasterization: a pixel strictly inside
/// a notch that is disjoint from the walled region's strict interior is
/// never overwritten by wall color, regardless of the connectivity of
/// the cell nearest the border.
pub proof fn lemma_markers_survive_paint(
    pix: Seq<Pixel>,
    w: int,
    g: Grid,
    region: Region,
    passage_width: int,
    strip: Region,
    k: int,
)
    requires
        forall|a: int, b: int| strip.interior_xy(a, b) ==> !region.interior_xy(a, b),
        0 <= k < pix.len(),
        strip.interior_xy(k % w, k / w),
    ensures
        painted(pix, w, g, region, passage_width)[k] == pix[k],
{
    assert(!region.interior_xy(k % w, k / w));
}

} // verus!
