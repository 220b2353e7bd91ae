use vstd::prelude::*;
use crate::offset::Offset;

verus! {

/// Signed grid unit; boards are small enough for eight bits.
pub type Unit = i8;

/// Unsigned measure of grid distances and areas.
pub type UnitAbs = u16;

/// A grid cell.
#[derive(Copy, Clone, PartialEq, Eq, Debug, Structural)]
pub struct Coord {
    pub x: Unit,
    pub y: Unit,
}

pub open spec fn min_int(a: int, b: int) -> int {
    if a <= b { a } else { b }
}

pub open spec fn max_int(a: int, b: int) -> int {
    if a >= b { a } else { b }
}

pub open spec fn abs_int(a: int) -> int {
    if a < 0 { -a } else { a }
}

/// `c` lies in the rectangle spanned by corners `a` and `b`, borders included.
pub open spec fn in_rect(c: Coord, a: Coord, b: Coord) -> bool {
    min_int(a.x as int, b.x as int) <= c.x && c.x <= max_int(a.x as int, b.x as int)
        && min_int(a.y as int, b.y as int) <= c.y && c.y <= max_int(a.y as int, b.y as int)
}

/// Manhattan distance between two cells.
pub open spec fn manhattan(a: Coord, b: Coord) -> int {
    abs_int(b.x - a.x) + abs_int(b.y - a.y)
}

/// `v` limited to the coordinate range.
pub open spec fn clamp_unit(v: int) -> i8 {
    if v < i8::MIN { i8::MIN } else if v > i8::MAX { i8::MAX } else { v as i8 }
}

/// `v` limited to the coordinate range, so that a sum never wraps round to
/// the other end of it.
pub fn saturate(v: i16) -> (r: Unit)
    ensures
        r == clamp_unit(v as int),
{
    if v < -128 {
        -128
    } else if v > 127 {
        127
    } else {
        v as i8
    }
}

impl Coord {
    pub fn new(x: Unit, y: Unit) -> (r: Coord)
        ensures
            r == (Coord { x, y }),
    {
        Coord { x, y }
    }

    /// Inclusive containment in the rectangle with corners `a` and `b`.
    pub fn bounded_by(self, a: Coord, b: Coord) -> (r: bool)
        ensures
            r == in_rect(self, a, b),
    {
        let x_max = if a.x >= b.x { a.x } else { b.x };
        let x_min = if a.x <= b.x { a.x } else { b.x };
        let y_max = if a.y >= b.y { a.y } else { b.y };
        let y_min = if a.y <= b.y { a.y } else { b.y };
        self.x >= x_min && self.x <= x_max && self.y >= y_min && self.y <= y_max
    }

    /// Manhattan distance to `other`, computed without overflow.
    pub fn dist_to(self, other: Coord) -> (r: UnitAbs)
        ensures
            r as int == manhattan(self, other),
    {
        let dx: i16 = other.x as i16 - self.x as i16;
        let dy: i16 = other.y as i16 - self.y as i16;
        let ax: u16 = if dx < 0 { (-dx) as u16 } else { dx as u16 };
        let ay: u16 = if dy < 0 { (-dy) as u16 } else { dy as u16 };
        ax + ay
    }
}

impl std::ops::Add<Offset> for Coord {
    type Output = Coord;

    fn add(self, rhs: Offset) -> (r: Coord) {
        Coord { x: self.x + rhs.dx, y: self.y + rhs.dy }
    }
}

impl vstd::std_specs::ops::AddSpecImpl<Offset> for Coord {
    open spec fn obeys_add_spec() -> bool {
        true
    }

    /// The moved cell must stay representable.
    open spec fn add_req(self, rhs: Offset) -> bool {
        i8::MIN <= self.x + rhs.dx <= i8::MAX && i8::MIN <= self.y + rhs.dy <= i8::MAX
    }

    open spec fn add_spec(self, rhs: Offset) -> Coord {
        Coord { x: (self.x + rhs.dx) as i8, y: (self.y + rhs.dy) as i8 }
    }
}

impl std::ops::Sub<Offset> for Coord {
    type Output = Coord;

    fn sub(self, rhs: Offset) -> (r: Coord) {
        Coord { x: self.x - rhs.dx, y: self.y - rhs.dy }
    }
}

impl vstd::std_specs::ops::SubSpecImpl<Offset> for Coord {
    open spec fn obeys_sub_spec() -> bool {
        true
    }

    open spec fn sub_req(self, rhs: Offset) -> bool {
        i8::MIN <= self.x - rhs.dx <= i8::MAX && i8::MIN <= self.y - rhs.dy <= i8::MAX
    }

    open spec fn sub_spec(self, rhs: Offset) -> Coord {
        Coord { x: (self.x - rhs.dx) as i8, y: (self.y - rhs.dy) as i8 }
    }
}

impl std::ops::Sub<Coord> for Coord {
    type Output = Offset;

    /// The offset leading from `rhs` to `self`.
    fn sub(self, rhs: Coord) -> (r: Offset) {
        Offset { dx: self.x - rhs.x, dy: self.y - rhs.y }
    }
}

impl vstd::std_specs::ops::SubSpecImpl<Coord> for Coord {
    open spec fn obeys_sub_spec() -> bool {
        true
    }

    open spec fn sub_req(self, rhs: Coord) -> bool {
        i8::MIN <= self.x - rhs.x <= i8::MAX && i8::MIN <= self.y - rhs.y <= i8::MAX
    }

    open spec fn sub_spec(self, rhs: Coord) -> Offset {
        Offset { dx: (self.x - rhs.x) as i8, dy: (self.y - rhs.y) as i8 }
    }
}

impl std::ops::AddAssign<Offset> for Coord {
    /// Moves by `rhs`, saturating at the coordinate range (this trait takes no precondition).
    fn add_assign(&mut self, rhs: Offset)
        ensures
            final(self).x == clamp_unit(old(self).x + rhs.dx),
            final(self).y == clamp_unit(old(self).y + rhs.dy),
    {
        self.x = saturate(self.x as i16 + rhs.dx as i16);
        self.y = saturate(self.y as i16 + rhs.dy as i16);
    }
}

impl std::ops::SubAssign<Offset> for Coord {
    /// Moves by minus `rhs`, saturating at the coordinate range (this trait takes no precondition).
    fn sub_assign(&mut self, rhs: Offset)
        ensures
            final(self).x == clamp_unit(old(self).x - rhs.dx),
            final(self).y == clamp_unit(old(self).y - rhs.dy),
    {
        self.x = saturate(self.x as i16 - rhs.dx as i16);
        self.y = saturate(self.y as i16 - rhs.dy as i16);
    }
}

} // verus!
