//! Points and axis-aligned rectangles on the map grid.
use vstd::prelude::*;

verus! {

/// Absolute difference of two unsigned coordinates.
pub fn usize_abs(a: usize, b: usize) -> (r: usize)
    ensures
        r == abs_diff(a as int, b as int),
{
    if a >= b {
        a - b
    } else {
        b - a
    }
}

pub open spec fn abs_diff(a: int, b: int) -> nat {
    if a >= b {
        (a - b) as nat
    } else {
        (b - a) as nat
    }
}

/// A cell coordinate on the grid.
#[derive(Default, PartialEq, Eq, Structural, Copy, Clone, Debug, Hash)]
pub struct Point {
    pub x: usize,
    pub y: usize,
}

impl Point {
    pub fn new(x: usize, y: usize) -> (r: Point)
        ensures
            r.x == x,
            r.y == y,
    {
        Point { x, y }
    }

    /// Builds a point from signed coordinates, cast as `as usize` does.
    pub fn new_i32(x: i32, y: i32) -> (r: Point)
        ensures
            r.x == x as usize,
            r.y == y as usize,
    {
        Point::new(x as usize, y as usize)
    }

    /// Square of the Euclidean distance; it orders points exactly as the distance does.
    pub open spec fn dist2(self, other: Point) -> nat {
        abs_diff(self.x as int, other.x as int) * abs_diff(self.x as int, other.x as int)
            + abs_diff(self.y as int, other.y as int) * abs_diff(self.y as int, other.y as int)
    }

    pub fn distance_squared(&self, other: &Point) -> (r: u128)
        requires
            self.x <= i64::MAX,
            self.y <= i64::MAX,
            other.x <= i64::MAX,
            other.y <= i64::MAX,
        ensures
            r == self.dist2(*other),
    {
        let dx = usize_abs(self.x, other.x) as u128;
        let dy = usize_abs(self.y, other.y) as u128;
        assert(dx * dx <= i64::MAX as u128 * i64::MAX as u128) by (nonlinear_arith)
            requires dx <= i64::MAX;
        assert(dy * dy <= i64::MAX as u128 * i64::MAX as u128) by (nonlinear_arith)
            requires dy <= i64::MAX;
        dx * dx + dy * dy
    }
}

/// An axis-aligned rectangle with corners (x1, y1) and (x2, y2).
#[derive(PartialEq, Eq, Structural, Copy, Clone, Debug)]
pub struct Rect {
    pub x1: i32,
    pub x2: i32,
    pub y1: i32,
    pub y2: i32,
}

impl Rect {
    pub fn new(x: i32, y: i32, width: i32, height: i32) -> (r: Rect)
        requires
            i32::MIN <= x + width <= i32::MAX,
            i32::MIN <= y + height <= i32::MAX,
        ensures
            r.x1 == x,
            r.y1 == y,
            r.x2 == x + width,
            r.y2 == y + height,
    {
        Rect { x1: x, y1: y, x2: x + width, y2: y + height }
    }

    /// Inclusive overlap of the two bounding boxes.
    pub open spec fn overlaps(self, other: Rect) -> bool {
        self.x1 <= other.x2 && self.x2 >= other.x1 && self.y1 <= other.y2 && self.y2 >= other.y1
    }

    pub fn intersect(&self, other: &Rect) -> (r: bool)
        ensures
            r == self.overlaps(*other),
    {
        self.x1 <= other.x2 && self.x2 >= other.x1 && self.y1 <= other.y2 && self.y2 >= other.y1
    }

    pub open spec fn center_spec(self) -> Point {
        Point { x: ((self.x1 + self.x2) / 2) as usize, y: ((self.y1 + self.y2) / 2) as usize }
    }

    /// The integer midpoint; for a rectangle with non-negative corners it is
    /// `center_spec`.
    pub fn center(&self) -> (r: Point)
        ensures
            self.x1 >= 0 && self.x2 >= 0 && self.y1 >= 0 && self.y2 >= 0 ==> r
                == self.center_spec(),
    {
        let cx = ((self.x1 as i64 + self.x2 as i64) / 2) as i32;
        let cy = ((self.y1 as i64 + self.y2 as i64) / 2) as i32;
        Point::new_i32(cx, cy)
    }

    pub fn width(&self) -> (r: u32)
        ensures
            r == abs_diff(self.x1 as int, self.x2 as int),
    {
        if self.x2 >= self.x1 {
            (self.x2 as i64 - self.x1 as i64) as u32
        } else {
            (self.x1 as i64 - self.x2 as i64) as u32
        }
    }

    pub fn height(&self) -> (r: u32)
        ensures
            r == abs_diff(self.y1 as int, self.y2 as int),
    {
        if self.y2 >= self.y1 {
            (self.y2 as i64 - self.y1 as i64) as u32
        } else {
            (self.y1 as i64 - self.y2 as i64) as u32
        }
    }
}

} // verus!
