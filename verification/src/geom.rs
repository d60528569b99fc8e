//! Geometry primitives: 2D integer points and axis-aligned rectangular
//! regions in pixel space, with component-wise arithmetic and strict
//! interior tests.

use vstd::prelude::*;

verus! {

/// The failure modes of maze construction. All of them are fatal: the
/// caller's only remedy is to restart with different inputs.
#[derive(Clone, Copy, Debug, PartialEq, Eq, Structural)]
pub enum MazeError {
    /// A region size is not an exact multiple of the cell pitch.
    DimensionMismatch,
    /// A computed cell or neighbor index fell outside the grid.
    InvariantViolation,
    /// A full generation pass merged no groups while several remained.
    GenerationStalled,
    /// A geometric subtraction would drop below zero.
    Underflow,
}

/// A point in pixel space. Coordinates are non-negative by construction.
#[derive(Clone, Copy, Debug, PartialEq, Eq, Structural)]
pub struct Point {
    pub x: usize,
    pub y: usize,
}

impl Point {
    /// Strict domination in both axes: the partial order used for
    /// rectangular containment. Points that disagree between axes are
    /// incomparable.
    pub open spec fn spec_lt(self, other: Point) -> bool {
        self.x < other.x && self.y < other.y
    }

    /// Component-wise sum with another point.
    pub fn add_point(self, rhs: Point) -> (r: Point)
        requires
            self.x + rhs.x <= usize::MAX,
            self.y + rhs.y <= usize::MAX,
        ensures
            r.x == self.x + rhs.x,
            r.y == self.y + rhs.y,
    {
        Point { x: self.x + rhs.x, y: self.y + rhs.y }
    }

    /// Sum with a uniform scalar on both axes.
    pub fn add_scalar(self, rhs: usize) -> (r: Point)
        requires
            self.x + rhs <= usize::MAX,
            self.y + rhs <= usize::MAX,
        ensures
            r.x == self.x + rhs,
            r.y == self.y + rhs,
    {
        Point { x: self.x + rhs, y: self.y + rhs }
    }

    /// Component-wise difference. The coordinate space is unsigned, so a
    /// difference that would drop below zero fails with `Underflow`
    /// rather than wrapping.
    pub fn sub_point(self, rhs: Point) -> (r: Result<Point, MazeError>)
        ensures
            rhs.x <= self.x && rhs.y <= self.y ==> r == Ok::<Point, MazeError>(
                (Point { x: (self.x - rhs.x) as usize, y: (self.y - rhs.y) as usize }),
            ),
            !(rhs.x <= self.x && rhs.y <= self.y) ==> r == Err::<Point, MazeError>(
                MazeError::Underflow,
            ),
    {
        if rhs.x <= self.x && rhs.y <= self.y {
            Ok(Point { x: self.x - rhs.x, y: self.y - rhs.y })
        } else {
            Err(MazeError::Underflow)
        }
    }

    /// Difference with a uniform scalar on both axes; fails with
    /// `Underflow` if either coordinate would drop below zero.
    pub fn sub_scalar(self, rhs: usize) -> (r: Result<Point, MazeError>)
        ensures
            rhs <= self.x && rhs <= self.y ==> r == Ok::<Point, MazeError>(
                (Point { x: (self.x - rhs) as usize, y: (self.y - rhs) as usize }),
            ),
            !(rhs <= self.x && rhs <= self.y) ==> r == Err::<Point, MazeError>(
                MazeError::Underflow,
            ),
    {
        if rhs <= self.x && rhs <= self.y {
            Ok(Point { x: self.x - rhs, y: self.y - rhs })
        } else {
            Err(MazeError::Underflow)
        }
    }

    /// True iff `self` is strictly below `other` in both axes.
    pub fn strictly_less(self, other: Point) -> (r: bool)
        ensures
            r == self.spec_lt(other),
    {
        self.x < other.x && self.y < other.y
    }

    /// True iff `self` is strictly above `other` in both axes.
    pub fn strictly_greater(self, other: Point) -> (r: bool)
        ensures
            r == other.spec_lt(self),
    {
        other.x < self.x && other.y < self.y
    }
}

/// An axis-aligned rectangle in pixel space: a top-left corner and a size.
#[derive(Clone, Copy, Debug, PartialEq, Eq, Structural)]
pub struct Region {
    pub topleft: Point,
    pub size: Point,
}

impl Region {
    /// The bottom-right corner stays within the coordinate space.
    pub open spec fn fits(self) -> bool {
        self.topleft.x + self.size.x <= usize::MAX && self.topleft.y + self.size.y <= usize::MAX
    }

    /// Strict interior membership of the pixel at `(x, y)`: strictly
    /// between the corners in both axes, so every boundary pixel of the
    /// region is excluded.
    pub open spec fn interior_xy(self, x: int, y: int) -> bool {
        self.topleft.x < x && x < self.topleft.x + self.size.x && self.topleft.y < y && y
            < self.topleft.y + self.size.y
    }

    /// The corner diagonally opposite `topleft`.
    pub fn bot_right(&self) -> (r: Point)
        requires
            self.fits(),
        ensures
            r.x == self.topleft.x + self.size.x,
            r.y == self.topleft.y + self.size.y,
    {
        self.topleft.add_point(self.size)
    }

    /// Strict interior test: true iff `point` strictly dominates the
    /// top-left corner and is strictly dominated by the bottom-right one.
    pub fn intersect(&self, point: Point) -> (r: bool)
        requires
            self.fits(),
        ensures
            r == self.interior_xy(point.x as int, point.y as int),
    {
        point.strictly_greater(self.topleft) && point.strictly_less(self.bot_right())
    }

    /// The inset is small enough that the shrunk size stays non-negative
    /// on both axes.
    pub open spec fn shrink_ok(self, amount: Point) -> bool {
        amount.x + amount.x <= self.size.x && amount.y + amount.y <= self.size.y
    }

    /// The region inset by `amount` on all four sides: the top-left corner
    /// moves inward by `amount` and the size loses twice `amount` per axis.
    pub open spec fn shrink_val(self, amount: Point) -> Region {
        Region {
            topleft: Point {
                x: (self.topleft.x + amount.x) as usize,
                y: (self.topleft.y + amount.y) as usize,
            },
            size: Point {
                x: (self.size.x - amount.x - amount.x) as usize,
                y: (self.size.y - amount.y - amount.y) as usize,
            },
        }
    }

    /// Insets all four sides by `point` (per-axis amounts); fails with
    /// `Underflow` iff the resulting size would be negative on either axis.
    pub fn shrink(&self, point: Point) -> (r: Result<Region, MazeError>)
        requires
            self.shrink_ok(point) ==> self.topleft.x + point.x <= usize::MAX
                && self.topleft.y + point.y <= usize::MAX,
        ensures
            self.shrink_ok(point) ==> r == Ok::<Region, MazeError>(self.shrink_val(point)),
            !self.shrink_ok(point) ==> r == Err::<Region, MazeError>(MazeError::Underflow),
    {
        let shrunk_once = match self.size.sub_point(point) {
            Ok(s) => s,
            Err(e) => {
                return Err(e);
            },
        };
        let shrunk = match shrunk_once.sub_point(point) {
            Ok(s) => s,
            Err(e) => {
                return Err(e);
            },
        };
        Ok(Region { topleft: self.topleft.add_point(point), size: shrunk })
    }

    /// Insets all four sides by the uniform scalar `amt`; fails with
    /// `Underflow` iff the resulting size would be negative on either axis.
    pub fn shrink_usize(&self, amt: usize) -> (r: Result<Region, MazeError>)
        requires
            self.shrink_ok((Point { x: amt, y: amt })) ==> self.topleft.x + amt <= usize::MAX
                && self.topleft.y + amt <= usize::MAX,
        ensures
            self.shrink_ok((Point { x: amt, y: amt })) ==> r == Ok::<Region, MazeError>(
                self.shrink_val((Point { x: amt, y: amt })),
            ),
            !self.shrink_ok((Point { x: amt, y: amt })) ==> r == Err::<Region, MazeError>(
                MazeError::Underflow,
            ),
    {
        self.shrink(Point { x: amt, y: amt })
    }
}

/// Strict containment admits no boundary pixel: any point sharing a
/// coordinate with one of the region's four edge lines (in particular
/// each corner) lies outside the strict interior.
pub proof fn lemma_interior_excludes_boundary(r: Region, x: int, y: int)
    requires
        x == r.topleft.x || y == r.topleft.y || x == r.topleft.x + r.size.x || y == r.topleft.y
            + r.size.y,
    ensures
        !r.interior_xy(x, y),
{
}

/// Shrinking twice is one bigger shrink: insetting by `a` and then by `b`
/// gives the same region as insetting by `a + b` once, whenever both
/// steps keep the size non-negative.
pub proof fn lemma_shrink_twice(r: Region, a: Point, b: Point)
    requires
        r.shrink_ok(a),
        r.shrink_val(a).shrink_ok(b),
        r.topleft.x + a.x + b.x <= usize::MAX,
        r.topleft.y + a.y + b.y <= usize::MAX,
    ensures
        r.shrink_ok((Point { x: (a.x + b.x) as usize, y: (a.y + b.y) as usize })),
        r.shrink_val(a).shrink_val(b) == r.shrink_val(
            (Point { x: (a.x + b.x) as usize, y: (a.y + b.y) as usize }),
        ),
{
}

} // verus!
