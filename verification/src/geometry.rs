//! Points and squares of the integer grid on which the index works.
//!
//! Coordinates are fixed-point numbers: one unit of the plane is [`UNIT`] grid
//! steps. All arithmetic is exact, so that the placement of an entity in the tree
//! is a function of its extent alone.

use vstd::prelude::*;

verus! {

/// Grid steps per unit of the plane: the edge of the square that
/// [`crate::tree::Quadtree::new`] indexes.
pub const UNIT: u32 = 65536;

/// A point of the grid.
#[derive(Clone, Copy, Debug, PartialEq, Eq, Structural)]
pub struct Position {
    pub x: i32,
    pub y: i32,
}

/// An axis-aligned square: its lowest corner and the length of its edge.
///
/// It covers the grid columns `pos.x <= x < pos.x + size` and the rows
/// `pos.y <= y < pos.y + size`. A square of size 0 stands for the single point at
/// its corner, and covers the one column and row of that point.
#[derive(Clone, Copy, Debug, PartialEq, Eq, Structural)]
pub struct Bounds {
    pub pos: Position,
    pub size: u32,
}

/// Distance along one axis from `t` to the closed interval from `lo` to `hi`:
/// zero inside the interval, else the distance to the nearer end.
pub open spec fn axis_gap(t: int, lo: int, hi: int) -> int {
    if t < lo {
        lo - t
    } else if t > hi {
        t - hi
    } else {
        0
    }
}

impl Bounds {
    /// Number of grid columns (and rows) covered: a point covers one.
    pub open spec fn width(self) -> int {
        if self.size == 0 {
            1
        } else {
            self.size as int
        }
    }

    /// Whether the square can be the extent of a node: it is not a point, and the
    /// columns and rows it covers are coordinates.
    pub open spec fn spec_is_region(self) -> bool {
        &&& self.size >= 1
        &&& self.pos.x + self.size <= 0x8000_0000
        &&& self.pos.y + self.size <= 0x8000_0000
    }

    /// Whether the square can be cut into four equal squares of the grid.
    pub open spec fn spec_can_split(self) -> bool {
        self.size >= 2 && self.size % 2 == 0
    }

    /// Whether every column and row that `other` covers is covered by `self`.
    pub open spec fn spec_contains(self, other: Bounds) -> bool {
        &&& self.pos.x <= other.pos.x
        &&& other.pos.x + other.width() <= self.pos.x + self.size
        &&& self.pos.y <= other.pos.y
        &&& other.pos.y + other.width() <= self.pos.y + self.size
    }

    /// The quadrant `idx` of the square: half the edge, moved by half the edge
    /// along x where `idx` is odd and along y where `idx` is 2 or 3.
    pub open spec fn spec_split(self, idx: int) -> Bounds {
        let half = self.size / 2;
        Bounds {
            pos: Position {
                x: (if idx % 2 == 1 {
                    self.pos.x + half
                } else {
                    self.pos.x as int
                }) as i32,
                y: (if idx >= 2 {
                    self.pos.y + half
                } else {
                    self.pos.y as int
                }) as i32,
            },
            size: half,
        }
    }

    /// On which side of the midline of one axis an interval of `width` columns
    /// starting at `at` lies: 1 above it, 0 below it, nothing where it crosses.
    pub open spec fn side(mid: int, at: int, width: int) -> Option<int> {
        if mid <= at {
            Some(1)
        } else if at + width <= mid {
            Some(0)
        } else {
            None
        }
    }

    /// The one quadrant on whose side of both midlines `other` lies, if it crosses
    /// neither midline.
    pub open spec fn spec_quadrant(self, other: Bounds) -> Option<int> {
        let half = self.size / 2;
        match (
            Self::side(self.pos.x + half, other.pos.x as int, other.width()),
            Self::side(self.pos.y + half, other.pos.y as int, other.width()),
        ) {
            (Some(col), Some(row)) => Some(col + 2 * row),
            _ => None,
        }
    }

    /// Square of the distance from `target` to the nearest point of the closed
    /// square: per axis zero within the span, else the distance to the nearer edge.
    pub open spec fn spec_min_sq_dist(self, target: Position) -> int {
        let dx = axis_gap(target.x as int, self.pos.x as int, self.pos.x + self.size);
        let dy = axis_gap(target.y as int, self.pos.y as int, self.pos.y + self.size);
        dx * dx + dy * dy
    }

    pub fn is_region(self) -> (r: bool)
        ensures
            r == self.spec_is_region(),
    {
        self.size >= 1 && self.pos.x as i64 + self.size as i64 <= 0x8000_0000 && self.pos.y as i64
            + self.size as i64 <= 0x8000_0000
    }

    pub fn can_split(self) -> (r: bool)
        ensures
            r == self.spec_can_split(),
    {
        self.size >= 2 && self.size % 2 == 0
    }

    pub fn contains(self, other: Bounds) -> (r: bool)
        ensures
            r == self.spec_contains(other),
    {
        let w: i64 = if other.size == 0 {
            1
        } else {
            other.size as i64
        };
        let size: i64 = self.size as i64;
        self.pos.x <= other.pos.x && other.pos.x as i64 + w <= self.pos.x as i64 + size
            && self.pos.y <= other.pos.y && other.pos.y as i64 + w <= self.pos.y as i64 + size
    }

    /// Cuts out quadrant `idx`: 0 and 1 are the lower row, 2 and 3 the upper, the
    /// odd ones the right column. The midlines of the square must be coordinates,
    /// as they are for every region.
    pub fn split(self, idx: usize) -> (r: Bounds)
        requires
            self.pos.x + self.size / 2 <= i32::MAX,
            self.pos.y + self.size / 2 <= i32::MAX,
        ensures
            r == self.spec_split(idx as int),
    {
        let half: u32 = self.size / 2;
        let mut x: i64 = self.pos.x as i64;
        let mut y: i64 = self.pos.y as i64;
        if idx % 2 == 1 {
            x = x + half as i64;
        }
        if idx >= 2 {
            y = y + half as i64;
        }
        Bounds { pos: Position { x: x as i32, y: y as i32 }, size: half }
    }

    /// Picks the quadrant that `other` fits into, or nothing where `other` crosses
    /// a midline of the square.
    pub fn quadrant(self, other: Bounds) -> (r: Option<usize>)
        ensures
            match r {
                Some(i) => self.spec_quadrant(other) == Some(i as int) && i < 4,
                None => self.spec_quadrant(other).is_none(),
            },
    {
        let half: i64 = (self.size / 2) as i64;
        let w: i64 = if other.size == 0 {
            1
        } else {
            other.size as i64
        };
        let mut idx: usize = 0;
        let mid_x: i64 = self.pos.x as i64 + half;
        if mid_x <= other.pos.x as i64 {
            idx = idx + 1;
        } else if mid_x < other.pos.x as i64 + w {
            return None;
        }
        let mid_y: i64 = self.pos.y as i64 + half;
        if mid_y <= other.pos.y as i64 {
            idx = idx + 2;
        } else if mid_y < other.pos.y as i64 + w {
            return None;
        }
        Some(idx)
    }

    /// Computes the squared distance from `target` to the nearest point of the
    /// square.
    pub fn min_sq_dist(self, target: Position) -> (r: u128)
        ensures
            r == self.spec_min_sq_dist(target),
    {
        let dx: u128 = gap(target.x, self.pos.x, self.size);
        let dy: u128 = gap(target.y, self.pos.y, self.size);
        assert(dx * dx <= 0x4_0000_0000 * 0x4_0000_0000) by (nonlinear_arith)
            requires
                dx <= 0x4_0000_0000,
        ;
        assert(dy * dy <= 0x4_0000_0000 * 0x4_0000_0000) by (nonlinear_arith)
            requires
                dy <= 0x4_0000_0000,
        ;
        dx * dx + dy * dy
    }

    /// A quadrant of a region that can be split is a region inside it.
    pub proof fn lemma_split_is_region(self, idx: int)
        requires
            self.spec_is_region(),
            self.spec_can_split(),
            0 <= idx < 4,
        ensures
            self.spec_split(idx).spec_is_region(),
            self.spec_contains(self.spec_split(idx)),
            self.spec_split(idx).size == self.size / 2,
    {
    }

    /// Within a region, the quadrant picked for a square is the one quadrant that
    /// contains it, and a square that crosses a midline lies in no quadrant.
    pub proof fn lemma_quadrant_is_the_containing_one(self, other: Bounds, idx: int)
        requires
            self.spec_is_region(),
            self.spec_can_split(),
            self.spec_contains(other),
            0 <= idx < 4,
        ensures
            self.spec_quadrant(other) == Some(idx) <==> self.spec_split(idx).spec_contains(other),
    {
    }

    /// Containment is transitive.
    pub proof fn lemma_contains_trans(self, mid: Bounds, inner: Bounds)
        requires
            self.spec_contains(mid),
            mid.spec_contains(inner),
        ensures
            self.spec_contains(inner),
    {
    }

    /// No point of a contained square is nearer to the target than the nearest
    /// point of the square that contains it.
    pub proof fn lemma_contained_is_no_nearer(self, inner: Bounds, target: Position)
        requires
            self.spec_contains(inner),
        ensures
            self.spec_min_sq_dist(target) <= inner.spec_min_sq_dist(target),
    {
        let ox = axis_gap(target.x as int, self.pos.x as int, self.pos.x + self.size);
        let oy = axis_gap(target.y as int, self.pos.y as int, self.pos.y + self.size);
        let ix = axis_gap(target.x as int, inner.pos.x as int, inner.pos.x + inner.size);
        let iy = axis_gap(target.y as int, inner.pos.y as int, inner.pos.y + inner.size);
        assert(0 <= ox <= ix);
        assert(0 <= oy <= iy);
        assert(ox * ox <= ix * ix) by (nonlinear_arith)
            requires
                0 <= ox <= ix,
        ;
        assert(oy * oy <= iy * iy) by (nonlinear_arith)
            requires
                0 <= oy <= iy,
        ;
    }
}

/// Distance along one axis from `t` to the span of `size` columns that starts at
/// `lo`, its far edge included.
fn gap(t: i32, lo: i32, size: u32) -> (r: u128)
    ensures
        r == axis_gap(t as int, lo as int, lo + size),
        r <= 0x4_0000_0000,
{
    let t: i64 = t as i64;
    let lo: i64 = lo as i64;
    let hi: i64 = lo + size as i64;
    if t < lo {
        (lo - t) as u128
    } else if t > hi {
        (t - hi) as u128
    } else {
        0
    }
}

} // verus!
