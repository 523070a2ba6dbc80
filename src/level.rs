use vstd::prelude::*;
use crate::coord::{Coord, Pos, is_direction, within};
use crate::sausage::{Sausage, SausageView};

verus! {

/// What a cell of the level holds.
#[derive(Clone, Copy, Debug, PartialEq, Eq, Structural)]
pub enum TileType {
    Ground,
    Grill,
    Water,
}

/// The largest magnitude of a coordinate that a level description may use.
pub const COORD_LIMIT: i32 = 0x0fff_ffff;

/// A level description as the mathematics sees it.
pub struct DescriptionView {
    pub start_pos: Pos,
    pub start_dir: Pos,
    pub ground: Seq<Pos>,
    pub grills: Seq<Pos>,
    pub sausages: Seq<SausageView>,
}

/// The view of each coordinate of a sequence.
pub open spec fn positions(v: Seq<Coord>) -> Seq<Pos> {
    v.map_values(|c: Coord| c@)
}

/// The view of each sausage of a sequence.
pub open spec fn sausage_views(v: Seq<Sausage>) -> Seq<SausageView> {
    v.map_values(|s: Sausage| s@)
}

/// Every point of `ps` lies within the coordinate limit.
pub open spec fn all_within(ps: Seq<Pos>) -> bool {
    forall|i: int| 0 <= i < ps.len() ==> within(#[trigger] ps[i], COORD_LIMIT as int)
}

/// Every sausage of `ss` lies within the coordinate limit.
pub open spec fn sausages_within(ss: Seq<SausageView>) -> bool {
    forall|i: int| 0 <= i < ss.len() ==> within(#[trigger] ss[i].pos, COORD_LIMIT as int)
}

/// A well-formed description: the start facing is a horizontal unit
/// vector and every coordinate lies within the limit.
pub open spec fn valid_description(d: DescriptionView) -> bool {
    &&& is_direction(d.start_dir)
    &&& within(d.start_pos, COORD_LIMIT as int)
    &&& all_within(d.ground)
    &&& all_within(d.grills)
    &&& sausages_within(d.sausages)
}

/// Tile classification by priority: ground, else grill, else water.
pub open spec fn tile_type(d: DescriptionView, c: Pos) -> TileType {
    if d.ground.contains(c) {
        TileType::Ground
    } else if d.grills.contains(c) {
        TileType::Grill
    } else {
        TileType::Water
    }
}

/// Why a level description was refused.
#[derive(Clone, Copy, Debug, PartialEq, Eq, Structural)]
pub enum DescriptionError {
    /// The start facing is not one of the four horizontal unit vectors.
    BadStartDirection,
    /// Some coordinate lies outside `[-COORD_LIMIT, COORD_LIMIT]`.
    CoordinateOutOfRange,
}

/// The static level: start pose, floor tiles, grill tiles and the sausages
/// as they first lie.
#[derive(Debug)]
pub struct LevelDescription {
    start_pos: Coord,
    start_dir: Coord,
    ground: Vec<Coord>,
    grills: Vec<Coord>,
    sausages: Vec<Sausage>,
}

impl View for LevelDescription {
    type V = DescriptionView;

    closed spec fn view(&self) -> DescriptionView {
        DescriptionView {
            start_pos: self.start_pos@,
            start_dir: self.start_dir@,
            ground: positions(self.ground@),
            grills: positions(self.grills@),
            sausages: sausage_views(self.sausages@),
        }
    }
}

/// Whether `c` is one of the coordinates of `v`.
fn contains_coord(v: &Vec<Coord>, c: Coord) -> (r: bool)
    ensures
        r == positions(v@).contains(c@),
{
    let mut i: usize = 0;
    while i < v.len()
        invariant
            i <= v.len(),
            forall|j: int| 0 <= j < i ==> v@[j]@ != c@,
        decreases v.len() - i,
    {
        if v[i] == c {
            assert(positions(v@)[i as int] == c@);
            return true;
        }
        i += 1;
    }
    assert(!positions(v@).contains(c@)) by {
        if positions(v@).contains(c@) {
            let k = choose|k: int| 0 <= k < positions(v@).len() && positions(v@)[k] == c@;
            assert(v@[k]@ == c@);
        }
    }
    false
}

/// A copy of a vector of coordinates.
fn copy_coords(v: &Vec<Coord>) -> (r: Vec<Coord>)
    ensures
        r@ == v@,
{
    let mut out: Vec<Coord> = Vec::new();
    let mut i: usize = 0;
    while i < v.len()
        invariant
            i <= v.len(),
            out@ == v@.subrange(0, i as int),
        decreases v.len() - i,
    {
        out.push(v[i]);
        i += 1;
    }
    assert(out@ == v@);
    out
}

/// Whether every coordinate of `v` lies within the limit.
fn coords_within(v: &Vec<Coord>) -> (r: bool)
    ensures
        r == all_within(positions(v@)),
{
    let mut i: usize = 0;
    while i < v.len()
        invariant
            i <= v.len(),
            forall|j: int| 0 <= j < i ==> within(#[trigger] positions(v@)[j], COORD_LIMIT as int),
        decreases v.len() - i,
    {
        if !coord_within(v[i]) {
            assert(!within(positions(v@)[i as int], COORD_LIMIT as int));
            return false;
        }
        i += 1;
    }
    true
}

fn coord_within(c: Coord) -> (r: bool)
    ensures
        r == within(c@, COORD_LIMIT as int),
{
    -COORD_LIMIT <= c.x && c.x <= COORD_LIMIT && -COORD_LIMIT <= c.y && c.y <= COORD_LIMIT
        && -COORD_LIMIT <= c.z && c.z <= COORD_LIMIT
}

impl LevelDescription {
    #[verifier::type_invariant]
    pub open spec fn inv(&self) -> bool {
        valid_description(self@)
    }

    /// Builds a description, refusing a start facing that is not a
    /// horizontal unit vector and coordinates beyond the limit.
    pub fn new(
        start_pos: Coord,
        start_dir: Coord,
        ground: Vec<Coord>,
        grills: Vec<Coord>,
        sausages: Vec<Sausage>,
    ) -> (r: Result<LevelDescription, DescriptionError>)
        ensures
            ({
                let v = DescriptionView {
                    start_pos: start_pos@,
                    start_dir: start_dir@,
                    ground: positions(ground@),
                    grills: positions(grills@),
                    sausages: sausage_views(sausages@),
                };
                match r {
                    Ok(d) => valid_description(v) && d@ == v,
                    Err(e) => !valid_description(v) && (e == DescriptionError::BadStartDirection
                        <==> !is_direction(start_dir@)),
                }
            }),
    {
        if !start_dir.is_direction() {
            return Err(DescriptionError::BadStartDirection);
        }
        if !coord_within(start_pos) || !coords_within(&ground) || !coords_within(&grills) {
            return Err(DescriptionError::CoordinateOutOfRange);
        }
        let mut i: usize = 0;
        while i < sausages.len()
            invariant
                i <= sausages.len(),
                is_direction(start_dir@),
                forall|j: int|
                    0 <= j < i ==> within(
                        (#[trigger] sausage_views(sausages@)[j]).pos,
                        COORD_LIMIT as int,
                    ),
            decreases sausages.len() - i,
        {
            if !coord_within(sausages[i].cell()) {
                assert(sausage_views(sausages@)[i as int] == sausages@[i as int]@);
                assert(!within(sausage_views(sausages@)[i as int].pos, COORD_LIMIT as int));
                return Err(DescriptionError::CoordinateOutOfRange);
            }
            i += 1;
        }
        Ok(LevelDescription { start_pos, start_dir, ground, grills, sausages })
    }

    /// Whether the cell is a floor tile.
    pub fn is_ground(&self, c: Coord) -> (r: bool)
        ensures
            r == self@.ground.contains(c@),
    {
        contains_coord(&self.ground, c)
    }

    /// Whether the cell is a grill tile.
    pub fn is_grill(&self, c: Coord) -> (r: bool)
        ensures
            r == self@.grills.contains(c@),
    {
        contains_coord(&self.grills, c)
    }

    /// Classifies a cell: ground first, then grill, else water.
    pub fn get_tile_type(&self, tile: Coord) -> (r: TileType)
        ensures
            r == tile_type(self@, tile@),
    {
        if self.is_ground(tile) {
            return TileType::Ground;
        }
        if self.is_grill(tile) {
            return TileType::Grill;
        }
        TileType::Water
    }

    /// Where the player starts.
    pub fn start_pos(&self) -> (r: Coord)
        ensures
            r@ == self@.start_pos,
    {
        self.start_pos
    }

    /// The way the player faces at the start.
    pub fn start_dir(&self) -> (r: Coord)
        ensures
            r@ == self@.start_dir,
    {
        self.start_dir
    }

    /// The floor tiles.
    pub fn ground(&self) -> (r: Vec<Coord>)
        ensures
            positions(r@) == self@.ground,
    {
        copy_coords(&self.ground)
    }

    /// The grill tiles.
    pub fn grills(&self) -> (r: Vec<Coord>)
        ensures
            positions(r@) == self@.grills,
    {
        copy_coords(&self.grills)
    }

    /// The sausages as they first lie.
    pub fn sausages(&self) -> (r: Vec<Sausage>)
        ensures
            sausage_views(r@) == self@.sausages,
    {
        copy_sausages(&self.sausages)
    }
}

impl Clone for LevelDescription {
    fn clone(&self) -> (r: LevelDescription)
        ensures
            r@ == self@,
    {
        proof {
            use_type_invariant(self);
        }
        LevelDescription {
            start_pos: self.start_pos,
            start_dir: self.start_dir,
            ground: copy_coords(&self.ground),
            grills: copy_coords(&self.grills),
            sausages: copy_sausages(&self.sausages),
        }
    }
}

/// A copy of a vector of sausages.
pub(crate) fn copy_sausages(v: &Vec<Sausage>) -> (r: Vec<Sausage>)
    ensures
        r@ == v@,
{
    let mut out: Vec<Sausage> = Vec::new();
    let mut i: usize = 0;
    while i < v.len()
        invariant
            i <= v.len(),
            out@ == v@.subrange(0, i as int),
        decreases v.len() - i,
    {
        out.push(v[i]);
        i += 1;
    }
    assert(out@ == v@);
    out
}

} // verus!
