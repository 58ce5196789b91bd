use vstd::prelude::*;

verus! {

/// A point with byte coordinates.
#[derive(Debug, PartialEq, Eq, Clone, Copy, Structural)]
pub struct Point {
    pub x: u8,
    pub y: u8,
}

/// The coordinate-wise sum of two points.
pub open spec fn sum(p: Point, q: Point) -> (int, int) {
    (p.x + q.x, p.y + q.y)
}

/// The coordinate-wise difference of two points.
pub open spec fn difference(p: Point, q: Point) -> (int, int) {
    (p.x - q.x, p.y - q.y)
}

impl Point {
    /// Adds the coordinates; both sums fit in a byte.
    pub fn add(self, other: Point) -> (r: Point)
        requires
            self.x + other.x <= u8::MAX,
            self.y + other.y <= u8::MAX,
        ensures
            (r.x as int, r.y as int) == sum(self, other),
    {
        Point { x: self.x + other.x, y: self.y + other.y }
    }

    /// Subtracts the coordinates; neither difference is negative.
    pub fn sub(self, other: Point) -> (r: Point)
        requires
            self.x >= other.x,
            self.y >= other.y,
        ensures
            (r.x as int, r.y as int) == difference(self, other),
    {
        Point { x: self.x - other.x, y: self.y - other.y }
    }

    /// The byte under the square root of the distance, as written with `^`, which on
    /// bytes is exclusive or: `(x - x') ^ 2 + (y - y') ^ 2`. Neither difference is
    /// negative and the sum fits in a byte.
    pub fn distance_term(&self, other: &Point) -> (r: u8)
        requires
            self.x >= other.x,
            self.y >= other.y,
            (((self.x - other.x) as u8) ^ 2u8) + (((self.y - other.y) as u8) ^ 2u8) <= u8::MAX,
        ensures
            r == (((self.x - other.x) as u8) ^ 2u8) + (((self.y - other.y) as u8) ^ 2u8),
    {
        let dx: u8 = self.x - other.x;
        let dy: u8 = self.y - other.y;
        (dx ^ 2) + (dy ^ 2)
    }

    /// Whether both coordinates are zero.
    pub fn is_zero(&self) -> (b: bool)
        ensures
            b == (self.x == 0 && self.y == 0),
    {
        self.x == self.y && self.x == 0
    }
}

/// Subtracting a point undoes adding it.
pub proof fn law_add_then_sub(p: Point, q: Point, r: Point)
    requires
        (r.x as int, r.y as int) == sum(p, q),
    ensures
        r.x >= q.x && r.y >= q.y,
        difference(r, q) == (p.x as int, p.y as int),
{
}

} // verus!
