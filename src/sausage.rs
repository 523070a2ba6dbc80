use vstd::prelude::*;
use crate::coord::{Coord, Pos, pos_add, below, within, mix, pos_id, mix_word, ARITH_BOUND};

verus! {

/// The axis along which a sausage lies.
#[derive(Clone, Copy, Debug, PartialEq, Eq, Structural, Hash)]
pub enum SausageOrientation {
    Horizontal,
    Vertical,
}

/// The unit vector from a sausage's first cell to its second.
pub open spec fn axis(o: SausageOrientation) -> Pos {
    match o {
        SausageOrientation::Horizontal => Pos { x: 1, y: 0, z: 0 },
        SausageOrientation::Vertical => Pos { x: 0, y: 1, z: 0 },
    }
}

impl SausageOrientation {
    /// The unit vector from a sausage's first cell to its second.
    pub fn vector(self) -> (r: Coord)
        ensures
            r@ == axis(self),
    {
        match self {
            SausageOrientation::Horizontal => Coord { x: 1, y: 0, z: 0 },
            SausageOrientation::Vertical => Coord { x: 0, y: 1, z: 0 },
        }
    }
}

/// A sausage as the mathematics sees it: its first cell, its axis, and the
/// cook counters of the face that rests on the floor (`down`) and of the
/// face that looks up (`up`), each as (first end, second end).
pub struct SausageView {
    pub pos: Pos,
    pub orientation: SausageOrientation,
    pub down: (int, int),
    pub up: (int, int),
}

/// The second cell of a sausage.
pub open spec fn tail(s: SausageView) -> Pos {
    pos_add(s.pos, axis(s.orientation))
}

/// Whether the sausage covers cell `c`.
pub open spec fn occupies(s: SausageView, c: Pos) -> bool {
    s.pos == c || tail(s) == c
}

/// A push along `dir` rolls the sausage (rather than sliding it) when `dir`
/// is perpendicular to the sausage's axis.
pub open spec fn rolls(s: SausageView, dir: Pos) -> bool {
    match s.orientation {
        SausageOrientation::Horizontal => dir.x == 0,
        SausageOrientation::Vertical => dir.y == 0,
    }
}

/// The sausage moved one step along `dir`; when the move is a roll, the face that
/// looked up now rests on the floor and the other way round.
pub open spec fn shifted(s: SausageView, dir: Pos) -> SausageView {
    SausageView {
        pos: pos_add(s.pos, dir),
        orientation: s.orientation,
        down: if rolls(s, dir) { s.up } else { s.down },
        up: if rolls(s, dir) { s.down } else { s.up },
    }
}

/// The sausage after the ends that touch a grill have each cooked once more
/// on the face that rests on the floor.
pub open spec fn seared(s: SausageView, first: bool, second: bool) -> SausageView {
    SausageView {
        down: (if first { s.down.0 + 1 } else { s.down.0 }, if second { s.down.1 + 1 } else { s.down.1 }),
        ..s
    }
}

/// The sausage one unit lower.
pub open spec fn dropped(s: SausageView) -> SausageView {
    SausageView { pos: below(s.pos), ..s }
}

/// Every cook counter of the sausage is at most `c`.
pub open spec fn counters_at_most(s: SausageView, c: int) -> bool {
    s.down.0 <= c && s.down.1 <= c && s.up.0 <= c && s.up.1 <= c
}

/// Every cook counter lies in `[0, 255]`.
pub open spec fn counters_in_byte(s: SausageView) -> bool {
    &&& 0 <= s.down.0 <= 255
    &&& 0 <= s.down.1 <= 255
    &&& 0 <= s.up.0 <= 255
    &&& 0 <= s.up.1 <= 255
}

/// Some cook counter exceeds one: the sausage is burnt.
pub open spec fn burnt(s: SausageView) -> bool {
    !counters_at_most(s, 1)
}

/// Every cook counter is exactly one: the sausage is cooked through.
pub open spec fn cooked_through(s: SausageView) -> bool {
    s.down.0 == 1 && s.down.1 == 1 && s.up.0 == 1 && s.up.1 == 1
}

/// Folds a sausage into the running identifier `h`: its first cell, its
/// axis (0 across, 1 down), then its four counters row by row.
pub open spec fn sausage_id(h: u64, s: SausageView) -> u64 {
    let o = match s.orientation {
        SausageOrientation::Horizontal => 0int,
        SausageOrientation::Vertical => 1int,
    };
    mix(mix(mix(mix(mix(pos_id(h, s.pos), o), s.down.0), s.down.1), s.up.0), s.up.1)
}

/// A two-cell movable object with a 2×2 matrix of cook counters, indexed
/// `[face][end]`; face 0 is the one resting on the floor. The two rows are
/// held field by field.
#[derive(Clone, Copy, Debug, PartialEq, Eq, Structural, Hash)]
pub struct Sausage {
    pos: Coord,
    down_first: u8,
    down_second: u8,
    up_first: u8,
    up_second: u8,
    pub orientation: SausageOrientation,
}

impl View for Sausage {
    type V = SausageView;

    closed spec fn view(&self) -> SausageView {
        SausageView {
            pos: self.pos@,
            orientation: self.orientation,
            down: (self.down_first as int, self.down_second as int),
            up: (self.up_first as int, self.up_second as int),
        }
    }
}

impl Sausage {
    pub fn new(pos: Coord, cooked: [[u8; 2]; 2], orientation: SausageOrientation) -> (r: Sausage)
        ensures
            r@.pos == pos@,
            r@.orientation == orientation,
            r@.down == (cooked[0][0] as int, cooked[0][1] as int),
            r@.up == (cooked[1][0] as int, cooked[1][1] as int),
    {
        Sausage {
            pos,
            down_first: cooked[0][0],
            down_second: cooked[0][1],
            up_first: cooked[1][0],
            up_second: cooked[1][1],
            orientation,
        }
    }
}

impl Sausage {
    /// Whether the sausage covers the cell `(x, y, z)`.
    pub fn check_collision(&self, x: i32, y: i32, z: i32) -> (r: bool)
        ensures
            r == occupies(self@, Pos { x: x as int, y: y as int, z: z as int }),
    {
        let (ax, ay): (i64, i64) = match self.orientation {
            SausageOrientation::Horizontal => (1, 0),
            SausageOrientation::Vertical => (0, 1),
        };
        (self.pos.x == x && self.pos.y == y && self.pos.z == z) || (self.pos.x as i64 + ax == x as i64
            && self.pos.y as i64 + ay == y as i64 && self.pos.z == z)
    }

    /// The horizontal coordinates of the first cell.
    pub fn pos(&self) -> (r: Vec<i32>)
        ensures
            r@.len() == 2,
            r@[0] as int == self@.pos.x,
            r@[1] as int == self@.pos.y,
    {
        vec![self.pos.x, self.pos.y]
    }

    /// The cook counters, row by row: `[face 0 end 0, face 0 end 1, face 1
    /// end 0, face 1 end 1]`.
    pub fn cooked(&self) -> (r: Vec<u8>)
        ensures
            r@.len() == 4,
            r@[0] as int == self@.down.0,
            r@[1] as int == self@.down.1,
            r@[2] as int == self@.up.0,
            r@[3] as int == self@.up.1,
    {
        vec![self.down_first, self.down_second, self.up_first, self.up_second]
    }

    /// The first cell.
    pub fn cell(&self) -> (r: Coord)
        ensures
            r@ == self@.pos,
    {
        self.pos
    }

    /// The second cell.
    pub fn pos2(&self) -> (r: Coord)
        requires
            within(self@.pos, ARITH_BOUND as int),
        ensures
            r@ == tail(self@),
    {
        self.pos.plus(self.orientation.vector())
    }

    /// The unit vector from the first cell to the second.
    pub fn axis_vector(&self) -> (r: Coord)
        ensures
            r@ == axis(self@.orientation),
    {
        self.orientation.vector()
    }

    /// Whether a push along `dir` rolls this sausage rather than sliding it.
    pub fn rolls_along(&self, dir: Coord) -> (r: bool)
        ensures
            r == rolls(self@, dir@),
    {
        match self.orientation {
            SausageOrientation::Horizontal => dir.x == 0,
            SausageOrientation::Vertical => dir.y == 0,
        }
    }

    /// Moved one step along `dir`, rolled when `dir` is across its axis.
    pub fn shift(&self, dir: Coord) -> (r: Sausage)
        requires
            within(self@.pos, ARITH_BOUND as int),
            within(dir@, 1),
        ensures
            r@ == shifted(self@, dir@),
    {
        let rolling = match self.orientation {
            SausageOrientation::Horizontal => dir.x == 0,
            SausageOrientation::Vertical => dir.y == 0,
        };
        let pos = self.pos.plus(dir);
        if rolling {
            Sausage {
                pos,
                down_first: self.up_first,
                down_second: self.up_second,
                up_first: self.down_first,
                up_second: self.down_second,
                orientation: self.orientation,
            }
        } else {
            Sausage { pos, ..*self }
        }
    }

    /// One more unit of cooking on the floor face of each end named.
    pub fn sear(&self, first: bool, second: bool) -> (r: Sausage)
        requires
            counters_at_most(self@, 254),
        ensures
            r@ == seared(self@, first, second),
    {
        Sausage {
            down_first: if first { self.down_first + 1 } else { self.down_first },
            down_second: if second { self.down_second + 1 } else { self.down_second },
            ..*self
        }
    }

    /// One unit lower.
    pub fn drop_one(&self) -> (r: Sausage)
        requires
            within(self@.pos, ARITH_BOUND as int),
        ensures
            r@ == dropped(self@),
    {
        Sausage { pos: self.pos.below(), ..*self }
    }

    /// Whether some cook counter exceeds one.
    pub fn is_burnt(&self) -> (r: bool)
        ensures
            r == burnt(self@),
    {
        self.down_first > 1 || self.down_second > 1 || self.up_first > 1 || self.up_second > 1
    }

    /// Whether every cook counter is exactly one.
    pub fn is_cooked_through(&self) -> (r: bool)
        ensures
            r == cooked_through(self@),
    {
        self.down_first == 1 && self.down_second == 1 && self.up_first == 1 && self.up_second == 1
    }

    /// Folds this sausage into the running identifier `h`.
    pub fn fold_into(&self, h: u64) -> (r: u64)
        ensures
            r == sausage_id(h, self@),
    {
        let o: u64 = match self.orientation {
            SausageOrientation::Horizontal => 0,
            SausageOrientation::Vertical => 1,
        };
        let h = mix_word(self.pos.fold_into(h), o);
        let h = mix_word(h, self.down_first as u64);
        let h = mix_word(h, self.down_second as u64);
        let h = mix_word(h, self.up_first as u64);
        mix_word(h, self.up_second as u64)
    }

    /// The counters of a sausage are bytes.
    pub proof fn lemma_counters_in_byte(s: Sausage)
        ensures
            counters_in_byte(s@),
    {
    }

    /// Two sausages are equal exactly when their views are.
    pub proof fn lemma_view_injective(a: Sausage, b: Sausage)
        ensures
            (a@ == b@) == (a == b),
    {
    }
}

} // verus!
