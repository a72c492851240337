use vstd::prelude::*;

use crate::coord::Point;

verus! {

/// A point with a single-character colour.
#[derive(Clone, Copy, Debug, PartialEq, Eq, Structural, PartialOrd, Ord, Hash)]
pub struct ColoredPoint {
    color: char,
    point: Point,
}

impl View for ColoredPoint {
    /// `(x, y, colour)`.
    type V = (int, int, char);

    closed spec fn view(&self) -> (int, int, char) {
        (self.point.x as int, self.point.y as int, self.color)
    }
}

impl ColoredPoint {
    pub fn new(x: i32, y: i32, color: char) -> (r: ColoredPoint)
        ensures
            r@ == (x as int, y as int, color),
    {
        ColoredPoint { point: Point::new(x, y), color }
    }

    /// A point with the colour `'#'`.
    pub fn new_pound(x: i32, y: i32) -> (r: ColoredPoint)
        ensures
            r@ == (x as int, y as int, '#'),
    {
        Self::new(x, y, '#')
    }

    pub fn color(&self) -> (r: char)
        ensures
            r == self@.2,
    {
        self.color
    }

    pub fn x(&self) -> (r: i32)
        ensures
            r == self@.0,
    {
        self.point.x
    }

    pub fn y(&self) -> (r: i32)
        ensures
            r == self@.1,
    {
        self.point.y
    }

    pub fn color_mut(&mut self) -> (r: &mut char)
        ensures
            *r == old(self)@.2,
            final(self)@ == (old(self)@.0, old(self)@.1, *final(r)),
    {
        &mut self.color
    }

    pub fn x_mut(&mut self) -> (r: &mut i32)
        ensures
            *r == old(self)@.0,
            final(self)@ == (*final(r) as int, old(self)@.1, old(self)@.2),
    {
        &mut self.point.x
    }

    pub fn y_mut(&mut self) -> (r: &mut i32)
        ensures
            *r == old(self)@.1,
            final(self)@ == (old(self)@.0, *final(r) as int, old(self)@.2),
    {
        &mut self.point.y
    }
}

} // verus!
