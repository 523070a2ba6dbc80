use vstd::prelude::*;
use vstd::wrapping::u64_specs::{wrapping_add, wrapping_mul};

verus! {

/// A point of the integer lattice, as the mathematics sees it.
pub struct Pos {
    pub x: int,
    pub y: int,
    pub z: int,
}

/// Componentwise sum of two lattice points.
pub open spec fn pos_add(a: Pos, b: Pos) -> Pos {
    Pos { x: a.x + b.x, y: a.y + b.y, z: a.z + b.z }
}

/// Componentwise negation.
pub open spec fn pos_neg(a: Pos) -> Pos {
    Pos { x: -a.x, y: -a.y, z: -a.z }
}

/// The point one unit below `a`.
pub open spec fn below(a: Pos) -> Pos {
    Pos { x: a.x, y: a.y, z: a.z - 1 }
}

/// One of the four horizontal unit vectors.
pub open spec fn is_direction(d: Pos) -> bool {
    d.z == 0 && ((d.x == 0 && (d.y == 1 || d.y == -1)) || (d.y == 0 && (d.x == 1 || d.x == -1)))
}

/// The direction a quarter turn to the left of `d`, that is `d × ẑ`.
pub open spec fn left_of(d: Pos) -> Pos {
    Pos { x: d.y, y: -d.x, z: 0 }
}

/// The direction a quarter turn to the right of `d`, that is `-(d × ẑ)`.
pub open spec fn right_of(d: Pos) -> Pos {
    Pos { x: -d.y, y: d.x, z: 0 }
}

/// How far `p` lies along the direction `d` (the dot product, for a
/// horizontal unit vector).
pub open spec fn along(p: Pos, d: Pos) -> int {
    if d.x == 1 {
        p.x
    } else if d.x == -1 {
        -p.x
    } else if d.y == 1 {
        p.y
    } else {
        -p.y
    }
}

/// Every component of `p` lies in `[-b, b]`.
pub open spec fn within(p: Pos, b: int) -> bool {
    -b <= p.x <= b && -b <= p.y <= b && -b <= p.z <= b
}

/// A cell of the level grid, or a direction between cells.
#[derive(Clone, Copy, Debug, PartialEq, Eq, Structural, Hash)]
pub struct Coord {
    pub x: i32,
    pub y: i32,
    pub z: i32,
}

impl View for Coord {
    type V = Pos;

    open spec fn view(&self) -> Pos {
        Pos { x: self.x as int, y: self.y as int, z: self.z as int }
    }
}

/// The largest magnitude of a component that the arithmetic below accepts
/// for its operands.
pub const ARITH_BOUND: i32 = 0x3fff_ffff;

impl Coord {
    pub fn new(x: i32, y: i32, z: i32) -> (r: Coord)
        ensures
            r@ == (Pos { x: x as int, y: y as int, z: z as int }),
    {
        Coord { x, y, z }
    }

    /// Componentwise sum.
    pub fn plus(self, o: Coord) -> (r: Coord)
        requires
            within(self@, ARITH_BOUND as int),
            within(o@, ARITH_BOUND as int),
        ensures
            r@ == pos_add(self@, o@),
    {
        Coord { x: self.x + o.x, y: self.y + o.y, z: self.z + o.z }
    }

    /// Componentwise negation.
    pub fn negated(self) -> (r: Coord)
        requires
            within(self@, ARITH_BOUND as int),
        ensures
            r@ == pos_neg(self@),
    {
        Coord { x: -self.x, y: -self.y, z: -self.z }
    }

    /// The cell directly below.
    pub fn below(self) -> (r: Coord)
        requires
            within(self@, ARITH_BOUND as int),
        ensures
            r@ == below(self@),
    {
        Coord { x: self.x, y: self.y, z: self.z - 1 }
    }

    /// `self × ẑ`: for a horizontal direction, the direction a quarter turn
    /// to its left.
    pub fn cross_z(self) -> (r: Coord)
        requires
            within(self@, ARITH_BOUND as int),
        ensures
            r@ == left_of(self@),
    {
        Coord { x: self.y, y: -self.x, z: 0 }
    }

    /// Whether this is one of the four horizontal unit vectors.
    pub fn is_direction(self) -> (r: bool)
        ensures
            r == is_direction(self@),
    {
        self.z == 0 && ((self.x == 0 && (self.y == 1 || self.y == -1)) || (self.y == 0 && (
        self.x == 1 || self.x == -1)))
    }
}

/// The starting value of an identifier.
pub const ID_SEED: u64 = 0xcbf2_9ce4_8422_2325;

/// The multiplier that folds one more word into an identifier.
pub const ID_PRIME: u64 = 0x0000_0100_0000_01b3;

/// Folds the word `w` into the running identifier `h`, modulo 2^64.
pub open spec fn mix(h: u64, w: int) -> u64 {
    wrapping_add(wrapping_mul(h, ID_PRIME), w as u64)
}

/// A coordinate shifted to a non-negative word.
pub open spec fn word(c: int) -> int {
    c + 0x8000_0000
}

/// Folds the three components of `p` into `h`.
pub open spec fn pos_id(h: u64, p: Pos) -> u64 {
    mix(mix(mix(h, word(p.x)), word(p.y)), word(p.z))
}

/// Folds the word `w` into the running identifier `h`, modulo 2^64.
pub fn mix_word(h: u64, w: u64) -> (r: u64)
    ensures
        r == mix(h, w as int),
{
    h.wrapping_mul(ID_PRIME).wrapping_add(w)
}

impl Coord {
    /// Folds the three components into the running identifier `h`.
    pub fn fold_into(self, h: u64) -> (r: u64)
        ensures
            r == pos_id(h, self@),
    {
        let a = mix_word(h, (self.x as i64 + 0x8000_0000) as u64);
        let b = mix_word(a, (self.y as i64 + 0x8000_0000) as u64);
        mix_word(b, (self.z as i64 + 0x8000_0000) as u64)
    }
}

} // verus!
