use vstd::prelude::*;

verus! {

/// A position or direction in three dimensions, one step per axis unit.
#[derive(Clone, Copy, Debug, Default, PartialEq, Eq, Structural)]
pub struct Coord3 {
    pub x: i8,
    pub y: i8,
    pub z: i8,
}

impl Coord3 {
    pub fn x(&self) -> (r: i8)
        ensures
            r == self.x,
    {
        self.x
    }

    pub fn y(&self) -> (r: i8)
        ensures
            r == self.y,
    {
        self.y
    }

    pub fn z(&self) -> (r: i8)
        ensures
            r == self.z,
    {
        self.z
    }

    pub fn x_mut(&mut self) -> (r: &mut i8)
        ensures
            *r == old(self).x,
            *final(self) == (Coord3 { x: *final(r), ..*old(self) }),
    {
        &mut self.x
    }

    pub fn y_mut(&mut self) -> (r: &mut i8)
        ensures
            *r == old(self).y,
            *final(self) == (Coord3 { y: *final(r), ..*old(self) }),
    {
        &mut self.y
    }

    pub fn z_mut(&mut self) -> (r: &mut i8)
        ensures
            *r == old(self).z,
            *final(self) == (Coord3 { z: *final(r), ..*old(self) }),
    {
        &mut self.z
    }

    pub fn new(x: i8, y: i8, z: i8) -> (r: Coord3)
        ensures
            r == (Coord3 { x, y, z }),
    {
        Coord3 { x, y, z }
    }

    /// One step up: `(1, 0, 0)`.
    pub fn up() -> (r: Coord3)
        ensures
            r == (Coord3 { x: 1, y: 0, z: 0 }),
    {
        Coord3::new(1, 0, 0)
    }

    /// One step down: `(-1, 0, 0)`.
    pub fn down() -> (r: Coord3)
        ensures
            r == (Coord3 { x: -1i8, y: 0, z: 0 }),
    {
        Coord3::new(-1, 0, 0)
    }

    /// One step left: `(0, 1, 0)`.
    pub fn left() -> (r: Coord3)
        ensures
            r == (Coord3 { x: 0, y: 1, z: 0 }),
    {
        Coord3::new(0, 1, 0)
    }

    /// One step right: `(0, -1, 0)`.
    pub fn right() -> (r: Coord3)
        ensures
            r == (Coord3 { x: 0, y: -1i8, z: 0 }),
    {
        Coord3::new(0, -1, 0)
    }

    /// One step to the front: `(0, 0, 1)`.
    pub fn front() -> (r: Coord3)
        ensures
            r == (Coord3 { x: 0, y: 0, z: 1 }),
    {
        Coord3::new(0, 0, 1)
    }

    /// One step to the back: `(0, 0, -1)`.
    pub fn back() -> (r: Coord3)
        ensures
            r == (Coord3 { x: 0, y: 0, z: -1i8 }),
    {
        Coord3::new(0, 0, -1)
    }
}

} // verus!
