//! Move selection for a grid-confined multi-agent survival game: coordinates,
//! snake bodies, the board rules engine and an anytime decision search.

pub mod api;
pub mod board;
pub mod brain;
pub mod coord;
pub mod fixture;
pub mod offset;
pub mod path;
pub mod pathfind;
pub mod snake;
pub mod territory;
pub mod util;

pub use api::{ApiBoard, ApiCoords, ApiDirection, ApiGame, ApiGameState, ApiMove, ApiSnake, ApiSnakeConfig};
pub use board::Board;
pub use brain::{decide, get_decision, heuristic, Score};
pub use coord::{Coord, Unit, UnitAbs};
pub use offset::Offset;
pub use path::Path;
pub use snake::{Health, Snake};
pub use territory::{Claim, Territory};
pub use util::{cartesian_product, fmt_int};
