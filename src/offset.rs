use vstd::prelude::*;
use crate::api::ApiDirection;
use crate::coord::{Coord, Unit, UnitAbs, abs_int, clamp_unit, saturate};

verus! {

/// A displacement between two cells.
#[derive(Copy, Clone, PartialEq, Eq, Debug, Structural)]
pub struct Offset {
    pub dx: Unit,
    pub dy: Unit,
}

/// Unit displacement of a move.
pub open spec fn dir_offset(d: ApiDirection) -> Offset {
    match d {
        ApiDirection::Left => Offset { dx: -1i8, dy: 0 },
        ApiDirection::Right => Offset { dx: 1, dy: 0 },
        ApiDirection::Up => Offset { dx: 0, dy: -1i8 },
        ApiDirection::Down => Offset { dx: 0, dy: 1 },
    }
}

/// The move whose unit displacement is `o`, if `o` is one.
pub open spec fn offset_dir(o: Offset) -> Option<ApiDirection> {
    if o.dx == -1 && o.dy == 0 {
        Some(ApiDirection::Left)
    } else if o.dx == 1 && o.dy == 0 {
        Some(ApiDirection::Right)
    } else if o.dx == 0 && o.dy == -1 {
        Some(ApiDirection::Up)
    } else if o.dx == 0 && o.dy == 1 {
        Some(ApiDirection::Down)
    } else {
        None
    }
}

impl From<ApiDirection> for Offset {
    fn from(dir: ApiDirection) -> (r: Offset) {
        match dir {
            ApiDirection::Left => Offset { dx: -1, dy: 0 },
            ApiDirection::Right => Offset { dx: 1, dy: 0 },
            ApiDirection::Up => Offset { dx: 0, dy: -1 },
            ApiDirection::Down => Offset { dx: 0, dy: 1 },
        }
    }
}

impl vstd::std_specs::convert::FromSpecImpl<ApiDirection> for Offset {
    open spec fn obeys_from_spec() -> bool {
        true
    }

    open spec fn from_spec(dir: ApiDirection) -> Offset {
        dir_offset(dir)
    }
}

impl ApiDirection {
    /// Unit displacement of this move.
    pub fn offset(self) -> (r: Offset)
        ensures
            r == dir_offset(self),
    {
        Offset::from(self)
    }

    /// The move whose unit displacement is `o`, if `o` is one.
    pub fn from_offset(o: Offset) -> (r: Option<ApiDirection>)
        ensures
            r == offset_dir(o),
            r matches Some(d) ==> dir_offset(d) == o,
    {
        if o.dx == -1 && o.dy == 0 {
            Some(ApiDirection::Left)
        } else if o.dx == 1 && o.dy == 0 {
            Some(ApiDirection::Right)
        } else if o.dx == 0 && o.dy == -1 {
            Some(ApiDirection::Up)
        } else if o.dx == 0 && o.dy == 1 {
            Some(ApiDirection::Down)
        } else {
            None
        }
    }
}

impl Offset {
    /// The null displacement.
    pub fn zero() -> (r: Offset)
        ensures
            r == (Offset { dx: 0, dy: 0 }),
    {
        Offset { dx: 0, dy: 0 }
    }

    pub fn new(dx: Unit, dy: Unit) -> (r: Offset)
        ensures
            r == (Offset { dx, dy }),
    {
        Offset { dx, dy }
    }

    /// The displacement leading from `a` to `b`.
    pub fn between(a: Coord, b: Coord) -> (r: Offset)
        requires
            i8::MIN <= b.x - a.x <= i8::MAX,
            i8::MIN <= b.y - a.y <= i8::MAX,
        ensures
            r.dx == b.x - a.x,
            r.dy == b.y - a.y,
    {
        Offset { dx: b.x - a.x, dy: b.y - a.y }
    }

    /// Exactly one axis is non-zero.
    pub fn linear(self) -> (r: bool)
        ensures
            r == ((self.dx == 0) != (self.dy == 0)),
    {
        (self.dx == 0) ^ (self.dy == 0)
    }

    /// Sum of the absolute components.
    pub fn manhattan_dist(self) -> (r: UnitAbs)
        ensures
            r as int == abs_int(self.dx as int) + abs_int(self.dy as int),
    {
        let ax: u16 = if self.dx < 0 { (-(self.dx as i16)) as u16 } else { self.dx as u16 };
        let ay: u16 = if self.dy < 0 { (-(self.dy as i16)) as u16 } else { self.dy as u16 };
        ax + ay
    }

    /// Component-wise absolute value.
    pub fn abs(&self) -> (r: Offset)
        requires
            self.dx != i8::MIN,
            self.dy != i8::MIN,
        ensures
            r.dx == abs_int(self.dx as int),
            r.dy == abs_int(self.dy as int),
    {
        Offset {
            dx: if self.dx < 0 { -self.dx } else { self.dx },
            dy: if self.dy < 0 { -self.dy } else { self.dy },
        }
    }
}

impl std::ops::Add for Offset {
    type Output = Offset;

    fn add(self, rhs: Offset) -> (r: Offset) {
        Offset { dx: self.dx + rhs.dx, dy: self.dy + rhs.dy }
    }
}

impl vstd::std_specs::ops::AddSpecImpl for Offset {
    open spec fn obeys_add_spec() -> bool {
        true
    }

    open spec fn add_req(self, rhs: Offset) -> bool {
        i8::MIN <= self.dx + rhs.dx <= i8::MAX && i8::MIN <= self.dy + rhs.dy <= i8::MAX
    }

    open spec fn add_spec(self, rhs: Offset) -> Offset {
        Offset { dx: (self.dx + rhs.dx) as i8, dy: (self.dy + rhs.dy) as i8 }
    }
}

impl std::ops::Sub for Offset {
    type Output = Offset;

    fn sub(self, rhs: Offset) -> (r: Offset) {
        Offset { dx: self.dx - rhs.dx, dy: self.dy - rhs.dy }
    }
}

impl vstd::std_specs::ops::SubSpecImpl for Offset {
    open spec fn obeys_sub_spec() -> bool {
        true
    }

    open spec fn sub_req(self, rhs: Offset) -> bool {
        i8::MIN <= self.dx - rhs.dx <= i8::MAX && i8::MIN <= self.dy - rhs.dy <= i8::MAX
    }

    open spec fn sub_spec(self, rhs: Offset) -> Offset {
        Offset { dx: (self.dx - rhs.dx) as i8, dy: (self.dy - rhs.dy) as i8 }
    }
}

impl std::ops::AddAssign for Offset {
    /// Adds `rhs`, saturating at the coordinate range (this trait takes no precondition).
    fn add_assign(&mut self, rhs: Offset)
        ensures
            final(self).dx == clamp_unit(old(self).dx + rhs.dx),
            final(self).dy == clamp_unit(old(self).dy + rhs.dy),
    {
        self.dx = saturate(self.dx as i16 + rhs.dx as i16);
        self.dy = saturate(self.dy as i16 + rhs.dy as i16);
    }
}

impl std::ops::SubAssign for Offset {
    /// Subtracts `rhs`, saturating at the coordinate range (this trait takes no precondition).
    fn sub_assign(&mut self, rhs: Offset)
        ensures
            final(self).dx == clamp_unit(old(self).dx - rhs.dx),
            final(self).dy == clamp_unit(old(self).dy - rhs.dy),
    {
        self.dx = saturate(self.dx as i16 - rhs.dx as i16);
        self.dy = saturate(self.dy as i16 - rhs.dy as i16);
    }
}

} // verus!
