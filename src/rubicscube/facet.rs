use vstd::prelude::*;

verus! {

broadcast use vstd::seq_lib::group_seq_properties;

/// A face of a cube.
#[derive(Clone, Copy, Debug, PartialEq, Eq, Structural, Hash, PartialOrd, Ord)]
pub enum Facet {
    North,
    South,
    East,
    West,
    Top,
    Bottom,
}

pub open spec fn spec_opposite(f: Facet) -> Facet {
    match f {
        Facet::North => Facet::South,
        Facet::South => Facet::North,
        Facet::East => Facet::West,
        Facet::West => Facet::East,
        Facet::Top => Facet::Bottom,
        Facet::Bottom => Facet::Top,
    }
}

/// The six faces in their fixed order.
pub open spec fn spec_all_facets() -> Seq<Facet> {
    seq![Facet::North, Facet::South, Facet::East, Facet::West, Facet::Top, Facet::Bottom]
}

/// The six faces in their fixed order.
pub fn all_facets() -> (r: Vec<Facet>)
    ensures
        r@ == spec_all_facets(),
{
    let r = vec![Facet::North, Facet::South, Facet::East, Facet::West, Facet::Top, Facet::Bottom];
    assert(r@ =~= spec_all_facets());
    r
}

impl Facet {
    /// The face across the cube.
    pub fn opposite(self) -> (r: Facet)
        ensures
            r == spec_opposite(self),
    {
        match self {
            Facet::North => Facet::South,
            Facet::South => Facet::North,
            Facet::East => Facet::West,
            Facet::West => Facet::East,
            Facet::Top => Facet::Bottom,
            Facet::Bottom => Facet::Top,
        }
    }

    /// The four faces that share an edge with this one, in the fixed order.
    pub fn neighbors(self) -> (r: Vec<Facet>)
        ensures
            r@ == spec_all_facets().filter(|f: Facet| f != spec_opposite(self)),
    {
        let all = all_facets();
        let opposite = self.opposite();
        let mut r: Vec<Facet> = Vec::new();
        let mut k: usize = 0;
        let ghost pred = |f: Facet| f != spec_opposite(self);
        while k < all.len()
            invariant
                0 <= k <= all@.len(),
                all@ == spec_all_facets(),
                opposite == spec_opposite(self),
                pred == (|f: Facet| f != spec_opposite(self)),
                r@ == all@.take(k as int).filter(pred),
            decreases all@.len() - k,
        {
            let f = all[k];
            assert(all@.take(k + 1) =~= all@.take(k as int).push(f));
            proof {
                all@.take(k as int).lemma_filter_push(f, pred);
            }
            if f != opposite {
                r.push(f);
            }
            k = k + 1;
        }
        assert(all@.take(6) =~= all@);
        r
    }

    /// The face that takes this face's place when the cube tips forward.
    pub fn pitch(self) -> (r: Facet)
        ensures
            r == match self {
                Facet::North => Facet::Bottom,
                Facet::South => Facet::Top,
                Facet::East => Facet::East,
                Facet::West => Facet::West,
                Facet::Top => Facet::North,
                Facet::Bottom => Facet::South,
            },
    {
        match self {
            Facet::North => Facet::Bottom,
            Facet::South => Facet::Top,
            Facet::East => Facet::East,
            Facet::West => Facet::West,
            Facet::Top => Facet::North,
            Facet::Bottom => Facet::South,
        }
    }

    /// The face that takes this face's place when the cube turns about the
    /// vertical axis.
    pub fn yaw(self) -> (r: Facet)
        ensures
            r == match self {
                Facet::North => Facet::East,
                Facet::South => Facet::West,
                Facet::East => Facet::South,
                Facet::West => Facet::North,
                Facet::Top => Facet::Top,
                Facet::Bottom => Facet::Bottom,
            },
    {
        match self {
            Facet::North => Facet::East,
            Facet::South => Facet::West,
            Facet::East => Facet::South,
            Facet::West => Facet::North,
            Facet::Top => Facet::Top,
            Facet::Bottom => Facet::Bottom,
        }
    }

    /// The face that takes this face's place when the cube rolls sideways.
    pub fn roll(self) -> (r: Facet)
        ensures
            r == match self {
                Facet::North => Facet::North,
                Facet::South => Facet::South,
                Facet::East => Facet::Bottom,
                Facet::West => Facet::Top,
                Facet::Top => Facet::East,
                Facet::Bottom => Facet::West,
            },
    {
        match self {
            Facet::North => Facet::North,
            Facet::South => Facet::South,
            Facet::East => Facet::Bottom,
            Facet::West => Facet::Top,
            Facet::Top => Facet::East,
            Facet::Bottom => Facet::West,
        }
    }
}

} // verus!
