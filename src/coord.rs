use vstd::prelude::*;

verus! {

/// A pair of integer coordinates, used both as an absolute grid position and
/// as a relative offset.
#[derive(Clone, Copy, Debug, PartialEq, Eq, Structural, PartialOrd, Ord, Hash)]
pub struct Coord {
    pub x: i32,
    pub y: i32,
}

/// Positions and offsets on a grid.
pub type Point = Coord;

/// True when `v` fits in an `i32`.
pub open spec fn fits_i32(v: int) -> bool {
    i32::MIN <= v <= i32::MAX
}

impl Coord {
    pub fn new(x: i32, y: i32) -> (r: Coord)
        ensures
            r.x == x,
            r.y == y,
    {
        Coord { x, y }
    }

    /// Componentwise sum.
    pub fn add(self, rhs: Coord) -> (r: Coord)
        requires
            fits_i32(self.x + rhs.x),
            fits_i32(self.y + rhs.y),
        ensures
            r.x == self.x + rhs.x,
            r.y == self.y + rhs.y,
    {
        Coord { x: self.x + rhs.x, y: self.y + rhs.y }
    }

    /// Componentwise difference.
    pub fn sub(self, rhs: Coord) -> (r: Coord)
        requires
            fits_i32(self.x - rhs.x),
            fits_i32(self.y - rhs.y),
        ensures
            r.x == self.x - rhs.x,
            r.y == self.y - rhs.y,
    {
        Coord { x: self.x - rhs.x, y: self.y - rhs.y }
    }

    /// Both components multiplied by `rhs`.
    pub fn mul(self, rhs: i32) -> (r: Coord)
        requires
            fits_i32(self.x * rhs),
            fits_i32(self.y * rhs),
        ensures
            r.x == self.x * rhs,
            r.y == self.y * rhs,
    {
        Coord { x: self.x * rhs, y: self.y * rhs }
    }
}

} // verus!
