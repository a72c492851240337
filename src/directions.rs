use vstd::prelude::*;

use crate::coord::Point;

verus! {

/// One step along `y`: `(0, 1)`.
pub fn up() -> (r: Point)
    ensures
        r == (Point { x: 0, y: 1 }),
{
    Point::new(0, 1)
}

/// One step back along `y`: `(0, -1)`.
pub fn down() -> (r: Point)
    ensures
        r == (Point { x: 0, y: -1i32 }),
{
    Point::new(0, -1)
}

/// One step back along `x`: `(-1, 0)`.
pub fn left() -> (r: Point)
    ensures
        r == (Point { x: -1i32, y: 0 }),
{
    Point::new(-1, 0)
}

/// One step along `x`: `(1, 0)`.
pub fn right() -> (r: Point)
    ensures
        r == (Point { x: 1, y: 0 }),
{
    Point::new(1, 0)
}

} // verus!
