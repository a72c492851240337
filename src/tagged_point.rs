use vstd::prelude::*;

use crate::coord::Point;

verus! {

/// A point labelled with a single-character colour: one occupied cell of a
/// shape, and the colour that the grid must show there.
#[derive(Clone, Copy, Debug, PartialEq, Eq, Structural, PartialOrd, Ord, Hash)]
pub struct TaggedPoint {
    color: char,
    point: Point,
}

impl View for TaggedPoint {
    /// `(x, y, colour)`.
    type V = (int, int, char);

    closed spec fn view(&self) -> (int, int, char) {
        (self.point.x as int, self.point.y as int, self.color)
    }
}

impl TaggedPoint {
    pub fn new(x: i32, y: i32, color: char) -> (r: TaggedPoint)
        ensures
            r@ == (x as int, y as int, color),
    {
        TaggedPoint { point: Point::new(x, y), color }
    }

    /// A point with the colour `'#'`.
    pub fn new_pound(x: i32, y: i32) -> (r: TaggedPoint)
        ensures
            r@ == (x as int, y as int, '#'),
    {
        Self::new(x, y, '#')
    }

    pub fn color(&self) -> (r: char)
        ensures
            r == self@.2,
    {
        self.color
    }

    pub fn x(&self) -> (r: i32)
        ensures
            r == self@.0,
    {
        self.point.x
    }

    pub fn y(&self) -> (r: i32)
        ensures
            r == self@.1,
    {
        self.point.y
    }

    pub fn as_point(&self) -> (r: &Point)
        ensures
            r.x == self@.0,
            r.y == self@.1,
    {
        &self.point
    }

    pub fn x_mut(&mut self) -> (r: &mut i32)
        ensures
            *r == old(self)@.0,
            final(self)@ == (*final(r) as int, old(self)@.1, old(self)@.2),
    {
        &mut self.point.x
    }

    pub fn y_mut(&mut self) -> (r: &mut i32)
        ensures
            *r == old(self)@.1,
            final(self)@ == (old(self)@.0, *final(r) as int, old(self)@.2),
    {
        &mut self.point.y
    }
}

} // verus!
