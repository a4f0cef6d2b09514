//! How many sheep stand within a jump radius of the dragon.

use vstd::prelude::*;
use crate::quest10::board::Chessboard;
use crate::quest10::position_set::PositionSet;
use crate::quest10::reach::frontier;
use crate::quest10::tiles::within_bounds;
use crate::quest10::tiles::PursuitError;
use crate::quest10::tiles::Tile;
use crate::quest10::tiles::TileValue;

verus! {

/// The tiles that the dragon can stand on after at least one and at most
/// `max_jumps` jumps from `origin`: the union of the frontiers of these
/// depths.
pub open spec fn cumulative_reach(
    origin: (int, int),
    max_jumps: nat,
    rows: int,
    columns: int,
) -> Set<(int, int)>
    decreases max_jumps,
{
    if max_jumps == 0 {
        Set::empty()
    } else {
        cumulative_reach(origin, (max_jumps - 1) as nat, rows, columns).union(
            frontier(origin, max_jumps, rows, columns),
        )
    }
}

/// The predicate that holds of the tiles with a sheep on a position of
/// `reach`.
pub open spec fn sheep_within(reach: Set<(int, int)>) -> spec_fn(Tile) -> bool {
    |t: Tile| t.value == TileValue::Sheep && reach.contains(t.position@)
}

/// The number of tiles of `tiles` that hold a sheep on a position of
/// `reach`.
pub open spec fn count_sheep_within(tiles: Seq<Tile>, reach: Set<(int, int)>) -> nat {
    tiles.filter(sheep_within(reach)).len()
}

/// The number of sheep of `board` that stand where the dragon can be after
/// at least one and at most `max_jumps` jumps. It is defined for a board
/// with an origin.
pub open spec fn count_within_cumulative_radius(board: &Chessboard, max_jumps: nat) -> nat
    recommends
        board.origin() is Some,
{
    count_sheep_within(
        board.tiles@,
        cumulative_reach(
            board.origin()->Some_0,
            max_jumps,
            board.rows as int,
            board.columns as int,
        ),
    )
}

/// A larger set of positions holds at least as many sheep.
pub proof fn lemma_count_sheep_within_monotone(
    tiles: Seq<Tile>,
    small: Set<(int, int)>,
    large: Set<(int, int)>,
)
    requires
        small.subset_of(large),
    ensures
        count_sheep_within(tiles, small) <= count_sheep_within(tiles, large),
    decreases tiles.len(),
{
    reveal(Seq::filter);
    if tiles.len() > 0 {
        lemma_count_sheep_within_monotone(tiles.drop_last(), small, large);
    }
}

/// The cumulative reach grows with the number of jumps.
pub proof fn lemma_cumulative_reach_grows(
    origin: (int, int),
    fewer: nat,
    more: nat,
    rows: int,
    columns: int,
)
    requires
        fewer <= more,
    ensures
        cumulative_reach(origin, fewer, rows, columns).subset_of(
            cumulative_reach(origin, more, rows, columns),
        ),
    decreases more,
{
    if fewer < more {
        lemma_cumulative_reach_grows(origin, fewer, (more - 1) as nat, rows, columns);
    }
}

/// A tile is within the cumulative reach exactly where it is on the
/// frontier of some depth from one up to the number of jumps.
pub proof fn lemma_cumulative_reach_is_union(
    origin: (int, int),
    max_jumps: nat,
    rows: int,
    columns: int,
    p: (int, int),
)
    ensures
        cumulative_reach(origin, max_jumps, rows, columns).contains(p) <==> exists|depth: nat|
            1 <= depth <= max_jumps && #[trigger] frontier(origin, depth, rows, columns).contains(p),
    decreases max_jumps,
{
    if max_jumps > 0 {
        lemma_cumulative_reach_is_union(origin, (max_jumps - 1) as nat, rows, columns, p);
        if cumulative_reach(origin, max_jumps, rows, columns).contains(p) {
            if frontier(origin, max_jumps, rows, columns).contains(p) {
            } else {
                let depth = choose|depth: nat|
                    1 <= depth <= max_jumps - 1 && #[trigger] frontier(
                        origin,
                        depth,
                        rows,
                        columns,
                    ).contains(p);
                assert(frontier(origin, depth, rows, columns).contains(p));
            }
        }
        if exists|depth: nat|
            1 <= depth <= max_jumps && #[trigger] frontier(origin, depth, rows, columns).contains(p) {
            let depth = choose|depth: nat|
                1 <= depth <= max_jumps && #[trigger] frontier(origin, depth, rows, columns).contains(
                    p,
                );
            if depth < max_jumps {
                assert(frontier(origin, depth, rows, columns).contains(p));
            }
        }
    }
}

/// With no jump allowed, no sheep is within the radius.
pub proof fn lemma_radius_zero_counts_nothing(board: &Chessboard)
    ensures
        count_within_cumulative_radius(board, 0) == 0,
{
    let reach = Set::<(int, int)>::empty();
    let kept = board.tiles@.filter(sheep_within(reach));
    if kept.len() > 0 {
        board.tiles@.lemma_filter_pred(sheep_within(reach), 0);
    }
}

/// The count never falls when more jumps are allowed.
pub proof fn lemma_count_nondecreasing_in_radius(board: &Chessboard, fewer: nat, more: nat)
    requires
        fewer <= more,
    ensures
        count_within_cumulative_radius(board, fewer) <= count_within_cumulative_radius(
            board,
            more,
        ),
{
    let origin = board.origin()->Some_0;
    lemma_cumulative_reach_grows(origin, fewer, more, board.rows as int, board.columns as int);
    lemma_count_sheep_within_monotone(
        board.tiles@,
        cumulative_reach(origin, fewer, board.rows as int, board.columns as int),
        cumulative_reach(origin, more, board.rows as int, board.columns as int),
    );
}

/// Counts the sheep of the board that the dragon can reach with at least
/// one and at most `turns` jumps. The frontier of every depth is computed
/// from the origin anew.
///
/// Fails with `InvalidOrigin` where the board has no dragon or several, or
/// where its dragon stands off the board.
pub fn part1(chessboard: &Chessboard, turns: u32) -> (result: Result<u64, PursuitError>)
    ensures
        match result {
            Ok(count) => chessboard.origin() is Some && count == count_within_cumulative_radius(
                chessboard,
                turns as nat,
            ),
            Err(e) => e == PursuitError::InvalidOrigin && chessboard.origin() is None,
        },
        turns == 0 && chessboard.origin() is Some ==> result == Ok::<u64, PursuitError>(0),
{
    proof {
        lemma_radius_zero_counts_nothing(chessboard);
    }
    let origin = chessboard.find_dragon()?;
    let dragon_tile = Tile { position: origin, value: TileValue::Dragon };
    let rows = chessboard.rows;
    let columns = chessboard.columns;
    let mut possible_dragon_moves = PositionSet::new(rows, columns);
    let mut depth: u32 = 0;
    while depth < turns
        invariant
            depth <= turns,
            within_bounds(origin@, rows as int, columns as int),
            dragon_tile == (Tile { position: origin, value: TileValue::Dragon }),
            chessboard.origin() is Some,
            possible_dragon_moves.wf(),
            possible_dragon_moves.spec_rows() == rows,
            possible_dragon_moves.spec_columns() == columns,
            possible_dragon_moves@ == cumulative_reach(
                origin@,
                depth as nat,
                rows as int,
                columns as int,
            ),
        decreases turns - depth,
    {
        depth += 1;
        let reached = dragon_tile.pass_turns_dragon(depth as usize, rows, columns)?;
        possible_dragon_moves.union_with(&reached);
    }
    let ghost reach = possible_dragon_moves@;
    let mut count: u64 = 0;
    let mut i: usize = 0;
    assert(chessboard.tiles@.take(0) =~= Seq::<Tile>::empty());
    while i < chessboard.tiles.len()
        invariant
            i <= chessboard.tiles.len(),
            possible_dragon_moves.wf(),
            possible_dragon_moves@ == reach,
            count == count_sheep_within(chessboard.tiles@.take(i as int), reach),
            count <= i,
        decreases chessboard.tiles.len() - i,
    {
        proof {
            assert(chessboard.tiles@.take(i + 1) =~= chessboard.tiles@.take(i as int).push(
                chessboard.tiles[i as int],
            ));
            chessboard.tiles@.take(i as int).lemma_filter_push(
                chessboard.tiles[i as int],
                sheep_within(reach),
            );
        }
        let tile = &chessboard.tiles[i];
        if tile.value == TileValue::Sheep && possible_dragon_moves.contains(
            tile.position.row,
            tile.position.column,
        ) {
            count += 1;
        }
        i += 1;
    }
    assert(chessboard.tiles@.take(i as int) =~= chessboard.tiles@);
    Ok(count)
}

} // verus!
