use vstd::prelude::*;

verus! {

/// A cell as the wire protocol gives it.
#[derive(Copy, Clone, PartialEq, Eq, Debug, Structural)]
pub struct ApiCoords {
    pub x: u32,
    pub y: u32,
}

/// Appearance an agent announces when a game starts.
#[derive(Clone, PartialEq, Eq, Debug)]
pub struct ApiSnakeConfig {
    pub color: String,
    pub head_type: String,
    pub tail_type: String,
}

/// Identity of a game.
#[derive(Clone, PartialEq, Eq, Debug)]
pub struct ApiGame {
    pub id: String,
}

/// One agent as the wire protocol gives it: head first.
#[derive(Clone, PartialEq, Eq, Debug)]
pub struct ApiSnake {
    pub id: String,
    pub name: String,
    pub health: u32,
    pub body: Vec<ApiCoords>,
}

/// The board as the wire protocol gives it.
#[derive(Clone, PartialEq, Eq, Debug)]
pub struct ApiBoard {
    pub height: u32,
    pub width: u32,
    pub food: Vec<ApiCoords>,
    pub snakes: Vec<ApiSnake>,
}

/// One decision request: the board, and the acting agent apart from its opponents.
#[derive(Clone, PartialEq, Eq, Debug)]
pub struct ApiGameState {
    pub game: ApiGame,
    pub turn: u32,
    pub board: ApiBoard,
    pub you: ApiSnake,
}

/// One of the four cardinal moves.
#[derive(Copy, Clone, PartialEq, Eq, Debug, Hash, Structural)]
pub enum ApiDirection {
    Up,
    Down,
    Left,
    Right,
}

/// Slot of a direction in direction-indexed tables.
pub open spec fn dir_index(d: ApiDirection) -> int {
    match d {
        ApiDirection::Down => 0,
        ApiDirection::Left => 1,
        ApiDirection::Up => 2,
        ApiDirection::Right => 3,
    }
}

/// The direction stored in slot `i` of a direction-indexed table.
pub open spec fn dir_at(i: int) -> ApiDirection {
    if i == 0 {
        ApiDirection::Down
    } else if i == 1 {
        ApiDirection::Left
    } else if i == 2 {
        ApiDirection::Up
    } else {
        ApiDirection::Right
    }
}

impl ApiDirection {
    pub fn as_index(self) -> (r: usize)
        ensures
            r == dir_index(self),
            r < 4,
    {
        match self {
            ApiDirection::Down => 0,
            ApiDirection::Left => 1,
            ApiDirection::Up => 2,
            ApiDirection::Right => 3,
        }
    }

    /// Inverse of `as_index`.
    pub fn from_index(i: usize) -> (r: ApiDirection)
        requires
            i < 4,
        ensures
            r == dir_at(i as int),
            dir_index(r) == i,
    {
        if i == 0 {
            ApiDirection::Down
        } else if i == 1 {
            ApiDirection::Left
        } else if i == 2 {
            ApiDirection::Up
        } else {
            ApiDirection::Right
        }
    }
}

/// The answer to a decision request.
#[derive(Copy, Clone, PartialEq, Eq, Debug, Structural)]
pub struct ApiMove {
    pub decision: ApiDirection,
}

} // verus!
