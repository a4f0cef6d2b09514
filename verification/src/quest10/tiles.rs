//! Board positions, tile values and tiles.

use vstd::prelude::*;
use crate::quest10::position_set::PositionSet;
use crate::quest10::reach::all_within_bounds;
use crate::quest10::reach::frontier;
use crate::quest10::reach::lemma_frontier_within_bounds;

verus! {

/// Why a board could not be read or a question about it not be answered.
#[derive(Debug, PartialEq, Eq, Clone, Copy, Structural)]
pub enum PursuitError {
    /// The text has no tile at all, or its rows differ in length.
    MalformedBoard,
    /// The text holds a byte that stands for no tile value.
    UnknownSymbol(u8),
    /// The board has no dragon or several, or the dragon stands off the
    /// board.
    InvalidOrigin,
    /// A simulation of no round was asked for.
    ZeroRounds,
    /// A tile was asked to move like a unit that it does not hold.
    InvalidTileValue(TileValue),
}

/// What stands on a tile when the board is read.
#[derive(Debug, PartialEq, Eq, Hash, Clone, Copy, Structural)]
pub enum TileValue {
    /// Nothing.
    Empty,
    /// A fleeing unit.
    Sheep,
    /// The pursuer.
    Dragon,
    /// An immune zone: a sheep standing here cannot be eaten.
    Hideout,
}

/// A coordinate of the board: row and column, counted from zero.
#[derive(Debug, PartialEq, Eq, Hash, Clone, Copy, Structural)]
pub struct BoardPosition {
    pub row: usize,
    pub column: usize,
}

impl View for BoardPosition {
    type V = (int, int);

    open spec fn view(&self) -> (int, int) {
        (self.row as int, self.column as int)
    }
}

/// A position together with what stands on it.
#[derive(Debug, PartialEq, Eq, Hash, Clone, Copy, Structural)]
pub struct Tile {
    pub position: BoardPosition,
    pub value: TileValue,
}

impl Tile {
    /// The frontier of depth `turns` of the dragon on this tile, on a board
    /// of `chessboard_rows` by `chessboard_columns` tiles.
    ///
    /// Fails with `InvalidTileValue` for a tile that holds no dragon, and
    /// with `InvalidOrigin` for a dragon that stands off the board.
    pub fn pass_turns_dragon(
        &self,
        turns: usize,
        chessboard_rows: usize,
        chessboard_columns: usize,
    ) -> (result: Result<PositionSet, PursuitError>)
        ensures
            self.value != TileValue::Dragon ==> result == Err::<PositionSet, PursuitError>(
                PursuitError::InvalidTileValue(self.value),
            ),
            self.value == TileValue::Dragon && !within_bounds(
                self.position@,
                chessboard_rows as int,
                chessboard_columns as int,
            ) ==> result == Err::<PositionSet, PursuitError>(PursuitError::InvalidOrigin),
            self.value == TileValue::Dragon && within_bounds(
                self.position@,
                chessboard_rows as int,
                chessboard_columns as int,
            ) ==> result is Ok && result->Ok_0.wf() && result->Ok_0.spec_rows() == chessboard_rows
                && result->Ok_0.spec_columns() == chessboard_columns && result->Ok_0@ == frontier(
                self.position@,
                turns as nat,
                chessboard_rows as int,
                chessboard_columns as int,
            ),
            result is Ok ==> all_within_bounds(
                result->Ok_0@,
                chessboard_rows as int,
                chessboard_columns as int,
            ),
    {
        if self.value != TileValue::Dragon {
            return Err(PursuitError::InvalidTileValue(self.value));
        }
        if !(self.position.row < chessboard_rows && self.position.column < chessboard_columns) {
            return Err(PursuitError::InvalidOrigin);
        }
        proof {
            lemma_frontier_within_bounds(
                self.position@,
                turns as nat,
                chessboard_rows as int,
                chessboard_columns as int,
            );
        }
        Ok(
            PositionSet::frontier(
                chessboard_rows,
                chessboard_columns,
                self.position.row,
                self.position.column,
                turns,
            ),
        )
    }

    /// The sheep on this tile after it has drifted `turns` rows down a
    /// board of `chessboard_rows` rows, or `None` if that takes it past
    /// the last row.
    ///
    /// Fails with `InvalidTileValue` for a tile that holds no sheep.
    pub fn pass_turns_sheep(&self, turns: usize, chessboard_rows: usize) -> (result: Result<
        Option<Tile>,
        PursuitError,
    >)
        ensures
            self.value != TileValue::Sheep ==> result == Err::<Option<Tile>, PursuitError>(
                PursuitError::InvalidTileValue(self.value),
            ),
            self.value == TileValue::Sheep && self.position.row + turns >= chessboard_rows
                ==> result == Ok::<Option<Tile>, PursuitError>(None),
            self.value == TileValue::Sheep && self.position.row + turns < chessboard_rows
                ==> result == Ok::<Option<Tile>, PursuitError>(
                Some(
                    Tile {
                        position: BoardPosition {
                            row: (self.position.row + turns) as usize,
                            column: self.position.column,
                        },
                        value: TileValue::Sheep,
                    },
                ),
            ),
    {
        if self.value != TileValue::Sheep {
            return Err(PursuitError::InvalidTileValue(self.value));
        }
        if turns >= chessboard_rows || self.position.row >= chessboard_rows - turns {
            Ok(None)
        } else {
            Ok(
                Some(
                    Tile {
                        position: BoardPosition {
                            row: self.position.row + turns,
                            column: self.position.column,
                        },
                        value: self.value,
                    },
                ),
            )
        }
    }
}

/// Whether `p` lies on a board of `rows` by `columns` tiles.
pub open spec fn within_bounds(p: (int, int), rows: int, columns: int) -> bool {
    0 <= p.0 < rows && 0 <= p.1 < columns
}

} // verus!
