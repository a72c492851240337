use vstd::prelude::*;

use crate::board::AsChar;
use crate::coord::Point;

verus! {

/// Index of a shape in the pool of a puzzle.
pub type ShapeIdx = u32;

/// A cell of the puzzle grid during the search: still blank and waiting for a
/// shape cell of its colour, or covered by the shape with the given index.
#[derive(Clone, Copy, Debug, PartialEq, Eq, Structural)]
pub enum PuzzlePiece {
    Blank { color: char },
    Shape { shape_idx: ShapeIdx },
}

/// The letter that shows a cell covered by shape `idx`: `'a'` for the first
/// shape, counting on modulo 256.
pub open spec fn shape_letter(idx: ShapeIdx) -> char {
    (((idx % 256) + 97) % 256) as u8 as char
}

/// The colour of a checkerboard cell: `'X'` where `x + y` is even, else `'O'`.
pub open spec fn checker_color(x: int, y: int) -> char {
    if (x + y) % 2 == 0 {
        'X'
    } else {
        'O'
    }
}

impl PuzzlePiece {
    pub fn is_blank(&self) -> (r: bool)
        ensures
            r == (*self is Blank),
    {
        match self {
            PuzzlePiece::Blank { .. } => true,
            PuzzlePiece::Shape { .. } => false,
        }
    }

    /// A cell covered by shape `shape_idx`.
    pub fn shape(shape_idx: ShapeIdx) -> (r: PuzzlePiece)
        ensures
            r == (PuzzlePiece::Shape { shape_idx }),
    {
        PuzzlePiece::Shape { shape_idx }
    }

    /// The blank cell of a checkerboard at `point`.
    pub fn blank(point: &Point) -> (r: PuzzlePiece)
        ensures
            r == (PuzzlePiece::Blank { color: checker_color(point.x as int, point.y as int) }),
    {
        let sum: i64 = point.x as i64 + point.y as i64;
        if sum % 2 == 0 {
            PuzzlePiece::Blank { color: 'X' }
        } else {
            PuzzlePiece::Blank { color: 'O' }
        }
    }

    /// A blank cell of colour `color`.
    pub fn blank_char(color: char) -> (r: PuzzlePiece)
        ensures
            r == (PuzzlePiece::Blank { color }),
    {
        PuzzlePiece::Blank { color }
    }
}

impl AsChar for PuzzlePiece {
    open spec fn spec_as_char(&self) -> char {
        match self {
            PuzzlePiece::Blank { color } => *color,
            PuzzlePiece::Shape { shape_idx } => shape_letter(*shape_idx),
        }
    }

    fn as_char(&self) -> (r: char) {
        match self {
            PuzzlePiece::Blank { color } => *color,
            PuzzlePiece::Shape { shape_idx } => {
                let b: u8 = ((*shape_idx % 256) as u8).wrapping_add(97);
                b as char
            },
        }
    }
}

} // verus!
