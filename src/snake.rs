use vstd::prelude::*;
use crate::api::{ApiDirection, ApiSnake};
use crate::coord::Coord;
use crate::offset::{Offset, dir_offset};
use crate::path::{Path, can_shift, first_index, slid_start, extended_end};

verus! {

/// Health counter; agents start at, and are fed back to, a small maximum.
pub type Health = u8;

/// The move that leads from cell `from` to its neighbour `to`, if they are neighbours.
pub open spec fn step_dir(from: Coord, to: Coord) -> Option<ApiDirection> {
    if to.x - from.x == -1 && to.y == from.y {
        Some(ApiDirection::Left)
    } else if to.x - from.x == 1 && to.y == from.y {
        Some(ApiDirection::Right)
    } else if to.x == from.x && to.y - from.y == -1 {
        Some(ApiDirection::Up)
    } else if to.x == from.x && to.y - from.y == 1 {
        Some(ApiDirection::Down)
    } else {
        None
    }
}

/// The mathematical content of a snake.
pub ghost struct SnakeView {
    pub health: Health,
    pub body: Seq<Coord>,
}

/// Health after one move: one less, but never below zero.
pub open spec fn health_after_move(h: Health) -> Health {
    if h > 0 { (h - 1) as Health } else { 0 }
}

/// The fallback move: straight on from the neck through the head, else up.
pub open spec fn default_move(body: Seq<Coord>) -> ApiDirection {
    if body.len() >= 2 {
        match step_dir(body[1], body[0]) {
            Some(d) => d,
            None => ApiDirection::Up,
        }
    } else {
        ApiDirection::Up
    }
}

/// The snake after moving in `dir`: health spent, head moved, tail retracted.
pub open spec fn slithered(s: SnakeView, dir: ApiDirection) -> SnakeView {
    SnakeView { health: health_after_move(s.health), body: slid_start(s.body, dir_offset(dir)) }
}

/// The snake after eating: health restored, tail kept one more turn.
pub open spec fn fed(s: SnakeView, new_health: Health) -> SnakeView {
    SnakeView { health: new_health, body: extended_end(s.body, Offset { dx: 0, dy: 0 }) }
}

/// An agent: a health counter and a body, head first.
#[derive(Clone, PartialEq, Eq, Debug)]
pub struct Snake {
    pub health: Health,
    pub body: Path,
}

impl View for Snake {
    type V = SnakeView;

    open spec fn view(&self) -> SnakeView {
        SnakeView { health: self.health, body: self.body@ }
    }
}

impl Snake {
    /// A snake of `size` segments stacked on `start`.
    pub fn init(health: Health, start: Coord, size: usize) -> (r: Snake)
        ensures
            r@.health == health,
            r@.body == Seq::new(size as nat, |i: int| start),
    {
        let mut v: Vec<Coord> = Vec::new();
        let mut i: usize = 0;
        while i < size
            invariant
                i <= size,
                v@ == Seq::new(i as nat, |j: int| start),
            decreases size - i,
        {
            v.push(start);
            i += 1;
            assert(v@ =~= Seq::new(i as nat, |j: int| start));
        }
        Snake { health, body: Path::from_vec(v) }
    }

    /// A snake from its protocol form. The body must be non-empty, every
    /// coordinate must fit the coordinate type and health must fit `Health`.
    pub fn from_api(api_snake: &ApiSnake) -> (r: Result<Snake, &'static str>)
        ensures
            r is Ok <==> (api_snake.body@.len() > 0 && api_snake.health <= 255 && forall|i: int|
                0 <= i < api_snake.body@.len() ==> api_snake.body@[i].x <= 127
                    && api_snake.body@[i].y <= 127),
            r matches Ok(s) ==> s@.health == api_snake.health && s@.body.len()
                == api_snake.body@.len() && forall|i: int|
                0 <= i < api_snake.body@.len() ==> s@.body[i].x == api_snake.body@[i].x
                    && s@.body[i].y == api_snake.body@[i].y,
    {
        if api_snake.body.len() == 0 {
            return Err("Malformed snake: body is empty");
        }
        if api_snake.health > 255 {
            return Err("Malformed snake: health out of range");
        }
        let mut i: usize = 0;
        while i < api_snake.body.len()
            invariant
                forall|j: int| 0 <= j < i ==> api_snake.body@[j].x <= 127 && api_snake.body@[j].y <= 127,
            decreases api_snake.body@.len() - i,
        {
            if api_snake.body[i].x > 127 || api_snake.body[i].y > 127 {
                return Err("Malformed snake: coordinate out of range");
            }
            i += 1;
        }
        Ok(Snake { health: api_snake.health as Health, body: Path::from_api(api_snake.body.as_slice()) })
    }

    /// A copy of this snake.
    pub fn duplicate(&self) -> (r: Snake)
        ensures
            r@ == self@,
    {
        Snake { health: self.health, body: self.body.duplicate() }
    }

    /// The move the rules make for an agent that does not answer: straight on
    /// from neck to head, or up where there is no such direction.
    pub fn get_default_move(&self) -> (r: ApiDirection)
        ensures
            r == default_move(self@.body),
    {
        if self.body.num_nodes() >= 2 {
            let head = self.body.get_node(0).unwrap();
            let neck = self.body.get_node(1).unwrap();
            let dx: i16 = head.x as i16 - neck.x as i16;
            let dy: i16 = head.y as i16 - neck.y as i16;
            if dx == -1 && dy == 0 {
                ApiDirection::Left
            } else if dx == 1 && dy == 0 {
                ApiDirection::Right
            } else if dx == 0 && dy == -1 {
                ApiDirection::Up
            } else if dx == 0 && dy == 1 {
                ApiDirection::Down
            } else {
                ApiDirection::Up
            }
        } else {
            ApiDirection::Up
        }
    }

    /// The cell moves are made from.
    pub fn head(&self) -> (r: Coord)
        requires
            self@.body.len() > 0,
        ensures
            r == self@.body[0],
    {
        self.body.get_node(0).unwrap()
    }

    /// The node after the head, if there is one.
    pub fn neck(&self) -> (r: Option<Coord>)
        ensures
            r == (if self@.body.len() > 1 { Some(self@.body[1]) } else { None::<Coord> }),
    {
        self.body.get_node(1)
    }

    /// The last node; the head itself for a body of one node.
    pub fn tail(&self) -> (r: Coord)
        requires
            self@.body.len() > 0,
        ensures
            r == self@.body.last(),
    {
        self.body.end().unwrap()
    }

    pub fn starved(&self) -> (r: bool)
        ensures
            r == (self.health == 0),
    {
        self.health == 0
    }

    /// Index of the first body node at or after `min_index` on `loc`.
    pub fn find_first_node(&self, loc: Coord, min_index: usize) -> (r: Option<usize>)
        ensures
            r matches Some(i) ==> first_index(self@.body, loc, min_index as int) == Some(i as int),
            r is None ==> first_index(self@.body, loc, min_index as int) is None,
    {
        self.body.find_node(loc, min_index)
    }

    /// Eats: health becomes `new_health` and the tail stays put one more turn.
    pub fn feed(&mut self, new_health: Health)
        ensures
            final(self)@ == fed(old(self)@, new_health),
    {
        self.health = new_health;
        self.body.extend_end(Offset::zero());
    }

    /// Moves one step in `dir`, spending one unit of health unless already starved.
    pub fn slither(&mut self, dir: ApiDirection)
        requires
            old(self)@.body.len() > 0 ==> can_shift(old(self)@.body[0], dir_offset(dir)),
        ensures
            final(self)@ == slithered(old(self)@, dir),
    {
        if !self.starved() {
            self.health = self.health - 1;
        }
        self.body.slide_start(dir.offset());
    }

    /// Number of body segments.
    pub fn size(&self) -> (r: usize)
        ensures
            r == self@.body.len(),
    {
        self.body.num_nodes()
    }
}

} // verus!
