//! The board: its dimensions and the tile on every position.

use vstd::prelude::*;
use vstd::arithmetic::div_mod::lemma_fundamental_div_mod_converse;
use vstd::string::StringSliceAdditionalSpecFns;
use crate::quest10::reach::reads_before;
use crate::quest10::tiles::within_bounds;
use crate::quest10::tiles::BoardPosition;
use crate::quest10::tiles::PursuitError;
use crate::quest10::tiles::Tile;
use crate::quest10::tiles::TileValue;
use crate::text::contents;
use crate::text::lines;
use crate::text::lines_of;
use crate::text::trim;
use crate::text::trimmed;

verus! {

/// A board of `rows` by `columns` tiles, listed row by row.
#[derive(Debug)]
pub struct Chessboard {
    pub tiles: Vec<Tile>,
    pub rows: usize,
    pub columns: usize,
}

/// The symbol of an empty tile, `.`.
pub const SYMBOL_EMPTY: u8 = 0x2e;

/// The symbol of a sheep, `S`.
pub const SYMBOL_SHEEP: u8 = 0x53;

/// The symbol of the dragon, `D`.
pub const SYMBOL_DRAGON: u8 = 0x44;

/// The symbol of a hideout, `#`.
pub const SYMBOL_HIDEOUT: u8 = 0x23;

/// The tile value that `symbol` stands for, if it stands for one.
pub open spec fn symbol_value(symbol: u8) -> Option<TileValue> {
    if symbol == SYMBOL_EMPTY {
        Some(TileValue::Empty)
    } else if symbol == SYMBOL_SHEEP {
        Some(TileValue::Sheep)
    } else if symbol == SYMBOL_DRAGON {
        Some(TileValue::Dragon)
    } else if symbol == SYMBOL_HIDEOUT {
        Some(TileValue::Hideout)
    } else {
        None
    }
}

/// Reads one symbol of a board: `.` is an empty tile, `S` a sheep, `D` the
/// dragon and `#` a hideout. Any other byte fails with `UnknownSymbol`.
pub fn classify(symbol: u8) -> (result: Result<TileValue, PursuitError>)
    ensures
        result == match symbol_value(symbol) {
            Some(value) => Ok::<TileValue, PursuitError>(value),
            None => Err::<TileValue, PursuitError>(PursuitError::UnknownSymbol(symbol)),
        },
{
    if symbol == SYMBOL_EMPTY {
        Ok(TileValue::Empty)
    } else if symbol == SYMBOL_SHEEP {
        Ok(TileValue::Sheep)
    } else if symbol == SYMBOL_DRAGON {
        Ok(TileValue::Dragon)
    } else if symbol == SYMBOL_HIDEOUT {
        Ok(TileValue::Hideout)
    } else {
        Err(PursuitError::UnknownSymbol(symbol))
    }
}

/// The predicate that holds of the tiles with a dragon.
pub open spec fn holds_dragon() -> spec_fn(Tile) -> bool {
    |t: Tile| t.value == TileValue::Dragon
}

/// The tiles of `tiles` that hold a dragon, in their order.
pub open spec fn dragons(tiles: Seq<Tile>) -> Seq<Tile> {
    tiles.filter(holds_dragon())
}

/// A list with dragons on two of its tiles has at least two dragons.
pub proof fn lemma_two_dragons(tiles: Seq<Tile>, i: int, j: int)
    requires
        0 <= i < j < tiles.len(),
        tiles[i].value == TileValue::Dragon,
        tiles[j].value == TileValue::Dragon,
    ensures
        dragons(tiles).len() >= 2,
    decreases tiles.len(),
{
    reveal(Seq::filter);
    if j == tiles.len() - 1 {
        lemma_one_dragon(tiles.drop_last(), i);
    } else {
        lemma_two_dragons(tiles.drop_last(), i, j);
    }
}

/// A list with a dragon on one of its tiles has at least one dragon.
pub proof fn lemma_one_dragon(tiles: Seq<Tile>, i: int)
    requires
        0 <= i < tiles.len(),
        tiles[i].value == TileValue::Dragon,
    ensures
        dragons(tiles).len() >= 1,
    decreases tiles.len(),
{
    reveal(Seq::filter);
    if i < tiles.len() - 1 {
        lemma_one_dragon(tiles.drop_last(), i);
    }
}

/// A board with dragons on two of its tiles has no origin.
pub proof fn lemma_several_dragons_have_no_origin(board: &Chessboard, i: int, j: int)
    requires
        0 <= i < board.tiles@.len(),
        0 <= j < board.tiles@.len(),
        i != j,
        board.tiles@[i].value == TileValue::Dragon,
        board.tiles@[j].value == TileValue::Dragon,
    ensures
        board.origin() is None,
{
    if i < j {
        lemma_two_dragons(board.tiles@, i, j);
    } else {
        lemma_two_dragons(board.tiles@, j, i);
    }
}

/// A board without a dragon has no origin.
pub proof fn lemma_no_dragon_has_no_origin(board: &Chessboard)
    requires
        forall|i: int|
            0 <= i < board.tiles@.len() ==> (#[trigger] board.tiles@[i]).value != TileValue::Dragon,
    ensures
        board.origin() is None,
{
    let found = dragons(board.tiles@);
    if found.len() > 0 {
        board.tiles@.lemma_filter_pred(holds_dragon(), 0);
        board.tiles@.lemma_filter_contains_rev(holds_dragon(), found[0]);
    }
}

impl Chessboard {
    /// Every position of the board has exactly one tile: the board is not
    /// empty and its tiles stand row by row, each at its own position.
    pub open spec fn wf(&self) -> bool {
        &&& self.rows > 0
        &&& self.columns > 0
        &&& self.tiles.len() == self.rows * self.columns
        &&& forall|i: int|
            0 <= i < self.tiles.len() ==> (#[trigger] self.tiles[i]).position@ == (
                i / (self.columns as int),
                i % (self.columns as int),
            )
    }

    /// Where the dragon starts: the position of the one tile that holds a
    /// dragon, if the board has exactly one such tile and it lies on the
    /// board.
    pub open spec fn origin(&self) -> Option<(int, int)> {
        let found = dragons(self.tiles@);
        if found.len() == 1 && within_bounds(
            found[0].position@,
            self.rows as int,
            self.columns as int,
        ) {
            Some(found[0].position@)
        } else {
            None
        }
    }

    /// Whether `coord` lies on the board.
    pub fn within_bounds(&self, coord: &BoardPosition) -> (inside: bool)
        ensures
            inside == within_bounds(coord@, self.rows as int, self.columns as int),
    {
        coord.row < self.rows && coord.column < self.columns
    }

    /// The number of rows and the number of columns.
    pub fn dimensions(&self) -> (d: (usize, usize))
        ensures
            d == (self.rows, self.columns),
    {
        (self.rows, self.columns)
    }

    /// The position from which the dragon starts. Fails with
    /// `InvalidOrigin` where the board has no dragon or several, or where
    /// its dragon stands off the board.
    pub fn find_dragon(&self) -> (result: Result<BoardPosition, PursuitError>)
        ensures
            match result {
                Ok(position) => self.origin() == Some(position@),
                Err(e) => e == PursuitError::InvalidOrigin && self.origin() is None,
            },
    {
        let mut count: usize = 0;
        let mut first = BoardPosition { row: 0, column: 0 };
        let mut i: usize = 0;
        assert(self.tiles@.take(0) =~= Seq::<Tile>::empty());
        while i < self.tiles.len()
            invariant
                i <= self.tiles.len(),
                count <= i,
                count == dragons(self.tiles@.take(i as int)).len(),
                count > 0 ==> first == dragons(self.tiles@.take(i as int))[0].position,
            decreases self.tiles.len() - i,
        {
            proof {
                assert(self.tiles@.take(i + 1) =~= self.tiles@.take(i as int).push(
                    self.tiles[i as int],
                ));
                self.tiles@.take(i as int).lemma_filter_push(self.tiles[i as int], holds_dragon());
            }
            if self.tiles[i].value == TileValue::Dragon {
                if count == 0 {
                    first = self.tiles[i].position;
                }
                count += 1;
            }
            i += 1;
        }
        assert(self.tiles@.take(i as int) =~= self.tiles@);
        if count == 1 && self.within_bounds(&first) {
            Ok(first)
        } else {
            Err(PursuitError::InvalidOrigin)
        }
    }
}

/// Whether `lines` form a grid: there is a line, the first line is not
/// empty, and every line is as long as the first.
pub open spec fn is_grid(lines: Seq<Seq<u8>>) -> bool {
    &&& lines.len() > 0
    &&& lines[0].len() > 0
    &&& forall|r: int| 0 <= r < lines.len() ==> (#[trigger] lines[r]).len() == lines[0].len()
}

/// Whether the byte at row `r` and column `c` of `lines` is the first, in
/// reading order, that stands for no tile value.
pub open spec fn is_first_unknown(lines: Seq<Seq<u8>>, r: int, c: int) -> bool {
    &&& 0 <= r < lines.len()
    &&& 0 <= c < lines[r].len()
    &&& symbol_value(lines[r][c]) is None
    &&& forall|i: int, j: int|
        0 <= i < lines.len() && 0 <= j < lines[i].len() && reads_before((i, j), r, c)
            ==> symbol_value(#[trigger] lines[i][j]) is Some
}

/// Whether every byte of `lines` stands for a tile value.
pub open spec fn all_symbols_known(lines: Seq<Seq<u8>>) -> bool {
    forall|i: int, j: int|
        0 <= i < lines.len() && 0 <= j < lines[i].len() ==> symbol_value(
            #[trigger] lines[i][j],
        ) is Some
}

/// The tile at index `i` of the board that the grid `lines` shows.
pub open spec fn shown_tile(lines: Seq<Seq<u8>>, i: int) -> Tile {
    let columns = lines[0].len() as int;
    Tile {
        position: BoardPosition { row: (i / columns) as usize, column: (i % columns) as usize },
        value: symbol_value(lines[i / columns][i % columns])->Some_0,
    }
}

/// Whether `board` is the board that the grid `lines` shows: one row for
/// each line, and on each position the tile value of the byte there.
pub open spec fn shows(board: &Chessboard, lines: Seq<Seq<u8>>) -> bool {
    &&& board.rows == lines.len()
    &&& board.columns == lines[0].len()
    &&& board.tiles.len() == lines.len() * lines[0].len()
    &&& forall|i: int| 0 <= i < board.tiles.len() ==> #[trigger] board.tiles[i] == shown_tile(lines, i)
}

/// The lines of a board's text: the text is trimmed first.
pub open spec fn board_lines(text: Seq<u8>) -> Seq<Seq<u8>> {
    lines_of(trimmed(text))
}

/// Reads a board from its text: one line for each row, one symbol for each
/// tile. White space around the text is ignored.
///
/// Fails with `MalformedBoard` where the lines form no grid. On a grid it
/// fails with `UnknownSymbol` where a byte stands for no tile value, and
/// names the first such byte in reading order.
pub fn parse_board(text: &str) -> (result: Result<Chessboard, PursuitError>)
    ensures
        match result {
            Ok(board) => {
                &&& is_grid(board_lines(text.spec_bytes()))
                &&& all_symbols_known(board_lines(text.spec_bytes()))
                &&& shows(&board, board_lines(text.spec_bytes()))
                &&& board.wf()
            },
            Err(PursuitError::MalformedBoard) => !is_grid(board_lines(text.spec_bytes())),
            Err(PursuitError::UnknownSymbol(symbol)) => {
                &&& is_grid(board_lines(text.spec_bytes()))
                &&& exists|r: int, c: int|
                    is_first_unknown(board_lines(text.spec_bytes()), r, c) && board_lines(
                        text.spec_bytes(),
                    )[r][c] == symbol
            },
            Err(_) => false,
        },
{
    let text_lines = lines(trim(text.as_bytes()));
    let ghost grid = board_lines(text.spec_bytes());
    assert(grid == contents(text_lines@));
    let rows = text_lines.len();
    if rows == 0 {
        return Err(PursuitError::MalformedBoard);
    }
    let columns = text_lines[0].len();
    assert(grid[0] == text_lines[0]@);
    if columns == 0 {
        return Err(PursuitError::MalformedBoard);
    }
    let mut r: usize = 0;
    while r < rows
        invariant
            r <= rows,
            rows == text_lines.len(),
            grid == contents(text_lines@),
            grid == board_lines(text.spec_bytes()),
            columns == grid[0].len(),
            forall|i: int| 0 <= i < r ==> (#[trigger] grid[i]).len() == columns,
        decreases rows - r,
    {
        assert(grid[r as int] == text_lines[r as int]@);
        if text_lines[r].len() != columns {
            assert(grid[r as int].len() != grid[0].len());
            return Err(PursuitError::MalformedBoard);
        }
        r += 1;
    }
    assert(is_grid(grid));
    let mut tiles: Vec<Tile> = Vec::new();
    r = 0;
    while r < rows
        invariant
            r <= rows,
            rows == text_lines.len(),
            grid == contents(text_lines@),
            grid == board_lines(text.spec_bytes()),
            columns == grid[0].len(),
            columns > 0,
            is_grid(grid),
            tiles.len() == r * columns,
            forall|i: int| 0 <= i < tiles.len() ==> #[trigger] tiles[i] == shown_tile(grid, i),
            forall|i: int, j: int|
                0 <= i < r && 0 <= j < columns ==> symbol_value(#[trigger] grid[i][j]) is Some,
        decreases rows - r,
    {
        let line = text_lines[r];
        assert(grid[r as int] == line@);
        let mut c: usize = 0;
        while c < columns
            invariant
                r < rows,
                c <= columns,
                rows == text_lines.len(),
                grid == contents(text_lines@),
                grid == board_lines(text.spec_bytes()),
            grid == board_lines(text.spec_bytes()),
                grid[r as int] == line@,
                columns == grid[0].len(),
                columns > 0,
                is_grid(grid),
                tiles.len() == r * columns + c,
                forall|i: int| 0 <= i < tiles.len() ==> #[trigger] tiles[i] == shown_tile(grid, i),
                forall|i: int, j: int|
                    0 <= i < grid.len() && 0 <= j < columns && reads_before(
                        (i, j),
                        r as int,
                        c as int,
                    ) ==> symbol_value(#[trigger] grid[i][j]) is Some,
            decreases columns - c,
        {
            proof {
                lemma_fundamental_div_mod_converse(
                    r * columns + c,
                    columns as int,
                    r as int,
                    c as int,
                );
            }
            match classify(line[c]) {
                Ok(value) => {
                    tiles.push(Tile { position: BoardPosition { row: r, column: c }, value });
                },
                Err(e) => {
                    assert(e == PursuitError::UnknownSymbol(line@[c as int]));
                    assert(is_first_unknown(grid, r as int, c as int) && grid[r as int][c as int]
                        == line@[c as int]);
                    return Err(e);
                },
            }
            c += 1;
        }
        assert(r * columns + columns == (r + 1) * columns) by (nonlinear_arith);
        r += 1;
    }
    let board = Chessboard { tiles, rows, columns };
    assert(board.wf());
    Ok(board)
}

} // verus!
