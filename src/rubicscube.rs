use vstd::prelude::*;

use crate::board::Board;
use crate::board::BoardSize;

use self::coord3::Coord3;

pub mod coord3;
pub mod facet;

verus! {

/// The colour of a sticker.
pub type Color = char;

/// One face of a cube: three by three stickers.
pub struct Facet {
    pub board: Board<Color>,
}

impl Facet {
    /// A face with blank stickers.
    pub fn new() -> (r: Facet)
        ensures
            r.board.wf(),
            r.board.spec_width() == 3,
            r.board.spec_height() == 3,
            forall|x: int, y: int| r.board.contains(x, y) ==> r.board.cell(x, y) == ' ',
    {
        Facet { board: Board::new(3, 3, ' ') }
    }
}

/// Which face a direction points at: `3 + x + 2y + 3z`, less 3 when above 3.
pub open spec fn facet_index(c: Coord3) -> int {
    let idx = 3 + c.x + 2 * c.y + 3 * c.z;
    if idx > 3 {
        idx - 3
    } else {
        idx
    }
}

/// A cube of six faces.
pub struct Cube {
    pub facets: Vec<Facet>,
}

impl Cube {
    /// A cube with six blank faces.
    pub fn new() -> (r: Cube)
        ensures
            r.facets@.len() == 6,
            forall|i: int|
                0 <= i < 6 ==> {
                    let b = (#[trigger] r.facets@[i]).board;
                    &&& b.wf()
                    &&& b.spec_width() == 3
                    &&& b.spec_height() == 3
                    &&& forall|x: int, y: int| b.contains(x, y) ==> b.cell(x, y) == ' '
                },
    {
        let mut facets: Vec<Facet> = Vec::new();
        let mut k: usize = 0;
        while k < 6
            invariant
                0 <= k <= 6,
                facets@.len() == k,
                forall|i: int|
                    0 <= i < k ==> {
                        let b = (#[trigger] facets@[i]).board;
                        &&& b.wf()
                        &&& b.spec_width() == 3
                        &&& b.spec_height() == 3
                        &&& forall|x: int, y: int| b.contains(x, y) ==> b.cell(x, y) == ' '
                    },
            decreases 6 - k,
        {
            facets.push(Facet::new());
            k = k + 1;
        }
        Cube { facets }
    }

    /// The face that direction `coord` points at.
    pub fn get(&self, coord: &Coord3) -> (r: &Facet)
        requires
            self.facets@.len() == 6,
            0 <= facet_index(*coord) < 6,
        ensures
            *r == self.facets@[facet_index(*coord)],
    {
        let sum: i32 = 3 + coord.x() as i32 + 2 * coord.y() as i32 + 3 * coord.z() as i32;
        let idx: i32 = if sum > 3 { sum - 3 } else { sum };
        &self.facets[idx as usize]
    }
}

} // verus!
