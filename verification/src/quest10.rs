//! A pursuit on a rectangular board: a dragon that jumps like a chess knight,
//! sheep that drift down the board one row per round, and hideouts on which
//! a sheep cannot be eaten.

pub mod board;
pub mod query;
pub mod tiles;
pub mod position_set;
pub mod reach;
pub mod simulation;

pub use board::classify;
pub use board::parse_board;
pub use board::Chessboard;
pub use position_set::PositionSet;
pub use query::part1;
pub use simulation::part2;
pub use simulation::SimulationState;
pub use tiles::BoardPosition;
pub use tiles::PursuitError;
pub use tiles::Tile;
pub use tiles::TileValue;
