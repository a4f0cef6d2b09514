//! The pursuit round by round.
//!
//! In every round the dragon jumps, then eats, then the sheep drift one row
//! down, then the dragon eats again. The dragon is followed on all its
//! paths at once: it stands on every tile of its frontier. A sheep on a
//! hideout is never eaten, and a sheep that drifts past the last row has
//! escaped: it leaves the board without being counted.

use vstd::prelude::*;
use crate::quest10::board::Chessboard;
use crate::quest10::position_set::PositionSet;
use crate::quest10::reach::frontier;
use crate::quest10::reach::jump_step;
use crate::quest10::tiles::within_bounds;
use crate::quest10::tiles::PursuitError;
use crate::quest10::tiles::Tile;
use crate::quest10::tiles::TileValue;

verus! {

/// The state of a pursuit between two rounds.
pub struct RoundState {
    /// The tiles on which the dragon stands.
    pub frontier: Set<(int, int)>,
    /// The positions of the sheep that are still on the board, in the
    /// order in which the board listed them.
    pub sheep: Seq<(int, int)>,
    /// The number of sheep eaten so far.
    pub captured: nat,
}

/// The predicate that holds of the positions on which the dragon does not
/// eat: those off its frontier, and the hideouts.
pub open spec fn is_safe(frontier: Set<(int, int)>, hideouts: Set<(int, int)>) -> spec_fn(
    (int, int),
) -> bool {
    |p: (int, int)| !frontier.contains(p) || hideouts.contains(p)
}

/// The sheep that a dragon on `frontier` leaves alive.
pub open spec fn survivors(
    sheep: Seq<(int, int)>,
    frontier: Set<(int, int)>,
    hideouts: Set<(int, int)>,
) -> Seq<(int, int)> {
    sheep.filter(is_safe(frontier, hideouts))
}

/// The predicate that holds of the positions above the last of `rows`
/// rows.
pub open spec fn can_drift(rows: int) -> spec_fn((int, int)) -> bool {
    |p: (int, int)| p.0 + 1 < rows
}

/// The position one row further down.
pub open spec fn one_row_down() -> spec_fn((int, int)) -> (int, int) {
    |p: (int, int)| (p.0 + 1, p.1)
}

/// The sheep after each has drifted one row down; those that were on the
/// last row or below it are gone.
pub open spec fn drifted(sheep: Seq<(int, int)>, rows: int) -> Seq<(int, int)> {
    sheep.filter(can_drift(rows)).map_values(one_row_down())
}

/// The state after one more round on a board of `rows` by `columns` tiles
/// with the given hideouts.
pub open spec fn round(
    state: RoundState,
    hideouts: Set<(int, int)>,
    rows: int,
    columns: int,
) -> RoundState {
    let frontier = jump_step(state.frontier, rows, columns);
    let after_jump = survivors(state.sheep, frontier, hideouts);
    let moved = drifted(after_jump, rows);
    let after_drift = survivors(moved, frontier, hideouts);
    RoundState {
        frontier,
        sheep: after_drift,
        captured: (state.captured + (state.sheep.len() - after_jump.len()) + (moved.len()
            - after_drift.len())) as nat,
    }
}

/// The state after `rounds` rounds that start from `state`.
pub open spec fn after_rounds(
    state: RoundState,
    rounds: nat,
    hideouts: Set<(int, int)>,
    rows: int,
    columns: int,
) -> RoundState
    decreases rounds,
{
    if rounds == 0 {
        state
    } else {
        round(after_rounds(state, (rounds - 1) as nat, hideouts, rows, columns), hideouts, rows, columns)
    }
}

/// The predicate that holds of the tiles with the given value.
pub open spec fn holds(value: TileValue) -> spec_fn(Tile) -> bool {
    |t: Tile| t.value == value
}

/// The position of a tile.
pub open spec fn position_of() -> spec_fn(Tile) -> (int, int) {
    |t: Tile| t.position@
}

/// The positions of the tiles of `tiles` with the given value, in their
/// order.
pub open spec fn positions_holding(tiles: Seq<Tile>, value: TileValue) -> Seq<(int, int)> {
    tiles.filter(holds(value)).map_values(position_of())
}

/// The positions of `rows` by `columns` tiles on which a tile of `tiles`
/// is a hideout.
pub open spec fn hideouts_among(tiles: Seq<Tile>, rows: int, columns: int) -> Set<(int, int)> {
    Set::new(
        |p: (int, int)|
            within_bounds(p, rows, columns) && positions_holding(tiles, TileValue::Hideout).contains(
                p,
            ),
    )
}

/// The hideouts of `board`.
pub open spec fn hideouts_of(board: &Chessboard) -> Set<(int, int)> {
    hideouts_among(board.tiles@, board.rows as int, board.columns as int)
}

/// The positions of the tiles of `tiles`, in their order.
pub open spec fn position_views(tiles: Seq<Tile>) -> Seq<(int, int)> {
    tiles.map_values(position_of())
}

/// Whether every tile of `tiles` holds a sheep.
pub open spec fn all_sheep(tiles: Seq<Tile>) -> bool {
    forall|i: int| 0 <= i < tiles.len() ==> (#[trigger] tiles[i]).value == TileValue::Sheep
}

/// The state before the first round: the dragon on its origin, every
/// sheep of the board alive, none eaten. It is defined for a board with an
/// origin.
pub open spec fn initial_state(board: &Chessboard) -> RoundState
    recommends
        board.origin() is Some,
{
    RoundState {
        frontier: set![board.origin()->Some_0],
        sheep: positions_holding(board.tiles@, TileValue::Sheep),
        captured: 0,
    }
}

/// The number of sheep eaten in the first `rounds` rounds on `board`.
pub open spec fn simulate_rounds(board: &Chessboard, rounds: nat) -> nat
    recommends
        board.origin() is Some,
{
    after_rounds(
        initial_state(board),
        rounds,
        hideouts_of(board),
        board.rows as int,
        board.columns as int,
    ).captured
}

/// A round never lowers the number of sheep eaten, and no sheep appears in
/// it: those eaten and those alive are together no more than before.
pub proof fn lemma_round_counts(
    state: RoundState,
    hideouts: Set<(int, int)>,
    rows: int,
    columns: int,
)
    ensures
        state.captured <= round(state, hideouts, rows, columns).captured,
        round(state, hideouts, rows, columns).captured + round(
            state,
            hideouts,
            rows,
            columns,
        ).sheep.len() <= state.captured + state.sheep.len(),
{
    let frontier = jump_step(state.frontier, rows, columns);
    let after_jump = survivors(state.sheep, frontier, hideouts);
    let moved = drifted(after_jump, rows);
    state.sheep.lemma_filter_len(is_safe(frontier, hideouts));
    after_jump.lemma_filter_len(can_drift(rows));
    moved.lemma_filter_len(is_safe(frontier, hideouts));
}

/// The number of sheep eaten never falls from one round to a later one.
pub proof fn lemma_captures_nondecreasing(
    state: RoundState,
    fewer: nat,
    more: nat,
    hideouts: Set<(int, int)>,
    rows: int,
    columns: int,
)
    requires
        fewer <= more,
    ensures
        after_rounds(state, fewer, hideouts, rows, columns).captured <= after_rounds(
            state,
            more,
            hideouts,
            rows,
            columns,
        ).captured,
    decreases more,
{
    if fewer < more {
        lemma_captures_nondecreasing(state, fewer, (more - 1) as nat, hideouts, rows, columns);
        lemma_round_counts(
            after_rounds(state, (more - 1) as nat, hideouts, rows, columns),
            hideouts,
            rows,
            columns,
        );
    }
}

/// After any number of rounds, the sheep eaten and the sheep alive are
/// together no more than at the start.
pub proof fn lemma_units_conserved(
    state: RoundState,
    rounds: nat,
    hideouts: Set<(int, int)>,
    rows: int,
    columns: int,
)
    ensures
        after_rounds(state, rounds, hideouts, rows, columns).captured + after_rounds(
            state,
            rounds,
            hideouts,
            rows,
            columns,
        ).sheep.len() <= state.captured + state.sheep.len(),
    decreases rounds,
{
    if rounds > 0 {
        lemma_units_conserved(state, (rounds - 1) as nat, hideouts, rows, columns);
        lemma_round_counts(
            after_rounds(state, (rounds - 1) as nat, hideouts, rows, columns),
            hideouts,
            rows,
            columns,
        );
    }
}

/// The number of sheep eaten on a board never exceeds the number of sheep
/// that the board starts with.
pub proof fn lemma_captures_bounded_by_sheep(board: &Chessboard, rounds: nat)
    ensures
        simulate_rounds(board, rounds) <= positions_holding(board.tiles@, TileValue::Sheep).len(),
        simulate_rounds(board, rounds) <= board.tiles@.len(),
{
    lemma_units_conserved(
        initial_state(board),
        rounds,
        hideouts_of(board),
        board.rows as int,
        board.columns as int,
    );
    board.tiles@.lemma_filter_len(holds(TileValue::Sheep));
}

/// The number of sheep eaten on a board never falls when the pursuit runs
/// for more rounds.
pub proof fn lemma_simulate_rounds_nondecreasing(board: &Chessboard, fewer: nat, more: nat)
    requires
        fewer <= more,
    ensures
        simulate_rounds(board, fewer) <= simulate_rounds(board, more),
{
    lemma_captures_nondecreasing(
        initial_state(board),
        fewer,
        more,
        hideouts_of(board),
        board.rows as int,
        board.columns as int,
    );
}

/// After any number of rounds the dragon stands on the frontier of that
/// depth.
pub proof fn lemma_rounds_follow_frontier(
    origin: (int, int),
    sheep: Seq<(int, int)>,
    rounds: nat,
    hideouts: Set<(int, int)>,
    rows: int,
    columns: int,
)
    ensures
        after_rounds(
            RoundState { frontier: set![origin], sheep, captured: 0 },
            rounds,
            hideouts,
            rows,
            columns,
        ).frontier == frontier(origin, rounds, rows, columns),
    decreases rounds,
{
    if rounds > 0 {
        lemma_rounds_follow_frontier(origin, sheep, (rounds - 1) as nat, hideouts, rows, columns);
    }
}

/// A sheep on a hideout outlives the dragon's meal, wherever the dragon
/// stands.
pub proof fn lemma_hideout_protects(
    sheep: Seq<(int, int)>,
    frontier: Set<(int, int)>,
    hideouts: Set<(int, int)>,
    i: int,
)
    requires
        0 <= i < sheep.len(),
        hideouts.contains(sheep[i]),
    ensures
        survivors(sheep, frontier, hideouts).contains(sheep[i]),
{
    sheep.lemma_filter_contains(is_safe(frontier, hideouts), i);
}

/// Where the dragon can eat none of the sheep, it eats none.
pub proof fn lemma_all_safe_all_survive(
    sheep: Seq<(int, int)>,
    frontier: Set<(int, int)>,
    hideouts: Set<(int, int)>,
)
    requires
        forall|i: int| 0 <= i < sheep.len() ==> is_safe(frontier, hideouts)(#[trigger] sheep[i]),
    ensures
        survivors(sheep, frontier, hideouts) == sheep,
    decreases sheep.len(),
{
    reveal(Seq::filter);
    if sheep.len() > 0 {
        lemma_all_safe_all_survive(sheep.drop_last(), frontier, hideouts);
        assert(sheep.drop_last().push(sheep.last()) =~= sheep);
    }
}

/// Whether a sheep at `p` stands on a hideout wherever it is on the board
/// of `rows` rows: at `p` and at every tile below it.
pub open spec fn is_hidden_all_the_way(p: (int, int), hideouts: Set<(int, int)>, rows: int) -> bool {
    forall|r: int| p.0 <= r && 0 <= r < rows ==> #[trigger] hideouts.contains((r, p.1))
}

/// Whether each of the sheep stands on a hideout wherever it is on the
/// board.
pub open spec fn is_hidden_herd(sheep: Seq<(int, int)>, hideouts: Set<(int, int)>, rows: int) -> bool {
    forall|i: int| 0 <= i < sheep.len() ==> is_hidden_all_the_way(#[trigger] sheep[i], hideouts, rows)
}

/// A round eats no sheep of a herd that stands on hideouts all the way,
/// whatever tiles the dragon reaches, and leaves the herd such a herd.
pub proof fn lemma_round_spares_hidden_herd(
    state: RoundState,
    hideouts: Set<(int, int)>,
    rows: int,
    columns: int,
)
    requires
        is_hidden_herd(state.sheep, hideouts, rows),
    ensures
        round(state, hideouts, rows, columns).captured == state.captured,
        is_hidden_herd(round(state, hideouts, rows, columns).sheep, hideouts, rows),
{
    let frontier = jump_step(state.frontier, rows, columns);
    assert forall|i: int| 0 <= i < state.sheep.len() implies is_safe(frontier, hideouts)(
        #[trigger] state.sheep[i],
    ) by {
        let p = state.sheep[i];
        assert(is_hidden_all_the_way(p, hideouts, rows));
        if frontier.contains(p) {
            assert(hideouts.contains((p.0, p.1)));
        }
    }
    lemma_all_safe_all_survive(state.sheep, frontier, hideouts);
    let staying = state.sheep.filter(can_drift(rows));
    let moved = drifted(state.sheep, rows);
    assert forall|i: int| 0 <= i < moved.len() implies is_hidden_all_the_way(
        #[trigger] moved[i],
        hideouts,
        rows,
    ) by {
        let p = staying[i];
        assert(staying.contains(p));
        state.sheep.lemma_filter_contains_rev(can_drift(rows), p);
        let j = choose|j: int| 0 <= j < state.sheep.len() && state.sheep[j] == p;
        assert(is_hidden_all_the_way(state.sheep[j], hideouts, rows));
        assert forall|r: int| moved[i].0 <= r && 0 <= r < rows implies #[trigger] hideouts.contains(
            (r, moved[i].1),
        ) by {
            assert(hideouts.contains((r, p.1)));
        }
    }
    assert forall|i: int| 0 <= i < moved.len() implies is_safe(frontier, hideouts)(
        #[trigger] moved[i],
    ) by {
        let q = moved[i];
        assert(is_hidden_all_the_way(q, hideouts, rows));
        if frontier.contains(q) {
            assert(hideouts.contains((q.0, q.1)));
        }
    }
    lemma_all_safe_all_survive(moved, frontier, hideouts);
}

/// A herd that stands on hideouts all the way is never eaten from, however
/// many rounds the pursuit runs and wherever the dragon stands.
pub proof fn lemma_hidden_herd_is_never_eaten(
    state: RoundState,
    rounds: nat,
    hideouts: Set<(int, int)>,
    rows: int,
    columns: int,
)
    requires
        is_hidden_herd(state.sheep, hideouts, rows),
    ensures
        after_rounds(state, rounds, hideouts, rows, columns).captured == state.captured,
        is_hidden_herd(after_rounds(state, rounds, hideouts, rows, columns).sheep, hideouts, rows),
    decreases rounds,
{
    if rounds > 0 {
        lemma_hidden_herd_is_never_eaten(state, (rounds - 1) as nat, hideouts, rows, columns);
        lemma_round_spares_hidden_herd(
            after_rounds(state, (rounds - 1) as nat, hideouts, rows, columns),
            hideouts,
            rows,
            columns,
        );
    }
}

/// A pursuit in progress.
#[derive(Debug)]
pub struct SimulationState {
    dragon_tiles: PositionSet,
    sheeps: Vec<Tile>,
    hideouts: PositionSet,
    result: u64,
}

impl View for SimulationState {
    type V = RoundState;

    closed spec fn view(&self) -> RoundState {
        RoundState {
            frontier: self.dragon_tiles@,
            sheep: position_views(self.sheeps@),
            captured: self.result as nat,
        }
    }
}

impl SimulationState {
    /// The state is one that a pursuit has reached.
    pub closed spec fn wf(&self) -> bool {
        &&& self.dragon_tiles.wf()
        &&& self.hideouts.wf()
        &&& self.hideouts.spec_rows() == self.dragon_tiles.spec_rows()
        &&& self.hideouts.spec_columns() == self.dragon_tiles.spec_columns()
        &&& all_sheep(self.sheeps@)
        &&& self.result + self.sheeps.len() <= usize::MAX
    }

    /// The hideouts of the board.
    pub closed spec fn spec_hideouts(&self) -> Set<(int, int)> {
        self.hideouts@
    }

    /// The number of rows of the board.
    pub closed spec fn spec_rows(&self) -> int {
        self.dragon_tiles.spec_rows()
    }

    /// The number of columns of the board.
    pub closed spec fn spec_columns(&self) -> int {
        self.dragon_tiles.spec_columns()
    }

    /// The state before the first round on `chessboard`. Fails with
    /// `InvalidOrigin` where the board has no dragon or several, or where
    /// its dragon stands off the board.
    pub fn new(chessboard: &Chessboard) -> (result: Result<SimulationState, PursuitError>)
        ensures
            match result {
                Ok(state) => chessboard.origin() is Some && state.wf() && state@ == initial_state(
                    chessboard,
                ) && state.spec_hideouts() == hideouts_of(chessboard) && state.spec_rows()
                    == chessboard.rows && state.spec_columns() == chessboard.columns,
                Err(e) => e == PursuitError::InvalidOrigin && chessboard.origin() is None,
            },
    {
        let origin = chessboard.find_dragon()?;
        let rows = chessboard.rows;
        let columns = chessboard.columns;
        let mut dragon_tiles = PositionSet::new(rows, columns);
        dragon_tiles.insert(origin.row, origin.column);
        assert(dragon_tiles@ =~= set![origin@]);
        let mut hideouts = PositionSet::new(rows, columns);
        let mut sheeps: Vec<Tile> = Vec::new();
        let mut i: usize = 0;
        assert(chessboard.tiles@.take(0) =~= Seq::<Tile>::empty());
        assert(position_views(sheeps@) =~= positions_holding(
            chessboard.tiles@.take(0),
            TileValue::Sheep,
        ));
        assert(hideouts@ =~= hideouts_among(chessboard.tiles@.take(0), rows as int, columns as int));
        while i < chessboard.tiles.len()
            invariant
                i <= chessboard.tiles.len(),
                sheeps.len() <= i,
                all_sheep(sheeps@),
                hideouts.wf(),
                hideouts.spec_rows() == rows,
                hideouts.spec_columns() == columns,
                position_views(sheeps@) == positions_holding(
                    chessboard.tiles@.take(i as int),
                    TileValue::Sheep,
                ),
                hideouts@ == hideouts_among(
                    chessboard.tiles@.take(i as int),
                    rows as int,
                    columns as int,
                ),
            decreases chessboard.tiles.len() - i,
        {
            let tile = &chessboard.tiles[i];
            let ghost seen = chessboard.tiles@.take(i as int);
            let ghost old_sheeps = sheeps@;
            proof {
                assert(chessboard.tiles@.take(i + 1) =~= seen.push(*tile));
                seen.lemma_filter_push(*tile, holds(TileValue::Sheep));
                seen.lemma_filter_push(*tile, holds(TileValue::Hideout));
            }
            if tile.value == TileValue::Sheep {
                sheeps.push(*tile);
                assert(position_views(sheeps@) =~= position_views(old_sheeps).push(
                    tile.position@,
                ));
                assert(positions_holding(seen.push(*tile), TileValue::Sheep) =~= positions_holding(
                    seen,
                    TileValue::Sheep,
                ).push(tile.position@));
            } else if tile.value == TileValue::Hideout {
                hideouts.insert(tile.position.row, tile.position.column);
                let ghost before = positions_holding(seen, TileValue::Hideout);
                let ghost after = positions_holding(seen.push(*tile), TileValue::Hideout);
                assert(after =~= before.push(tile.position@));
                assert forall|p: (int, int)| after.contains(p) <==> (before.contains(p) || p
                    == tile.position@) by {
                    if before.contains(p) {
                        let k = choose|k: int| 0 <= k < before.len() && before[k] == p;
                        assert(after[k] == p);
                    }
                    if p == tile.position@ {
                        assert(after[after.len() - 1] == p);
                    }
                }
                assert(hideouts@ =~= hideouts_among(seen.push(*tile), rows as int, columns as int));
            }
            i += 1;
        }
        assert(chessboard.tiles@.take(i as int) =~= chessboard.tiles@);
        Ok(SimulationState { dragon_tiles, sheeps, hideouts, result: 0 })
    }

    /// The number of sheep eaten so far.
    pub fn captured(&self) -> (n: u64)
        ensures
            n == self@.captured,
    {
        self.result
    }

    /// The number of sheep that are still on the board.
    pub fn live_sheep(&self) -> (n: usize)
        ensures
            n == self@.sheep.len(),
    {
        self.sheeps.len()
    }

    /// The dragon eats every sheep that stands on its frontier and not on
    /// a hideout.
    fn eat(&mut self)
        requires
            old(self).wf(),
        ensures
            final(self).wf(),
            final(self).spec_hideouts() == old(self).spec_hideouts(),
            final(self).spec_rows() == old(self).spec_rows(),
            final(self).spec_columns() == old(self).spec_columns(),
            final(self)@.frontier == old(self)@.frontier,
            final(self)@.sheep == survivors(
                old(self)@.sheep,
                old(self)@.frontier,
                old(self).spec_hideouts(),
            ),
            final(self)@.captured + final(self)@.sheep.len() == old(self)@.captured + old(
                self,
            )@.sheep.len(),
    {
        let ghost frontier = self.dragon_tiles@;
        let ghost hideouts = self.hideouts@;
        let ghost safe = is_safe(frontier, hideouts);
        let mut kept: Vec<Tile> = Vec::new();
        let mut eaten: u64 = 0;
        let mut i: usize = 0;
        assert(self.sheeps@.take(0) =~= Seq::<Tile>::empty());
        assert(position_views(self.sheeps@.take(0)) =~= Seq::<(int, int)>::empty());
        assert(position_views(kept@) =~= Seq::<(int, int)>::empty());
        while i < self.sheeps.len()
            invariant
                self.wf(),
                self.dragon_tiles@ == frontier,
                self.hideouts@ == hideouts,
                safe == is_safe(frontier, hideouts),
                i <= self.sheeps.len(),
                position_views(kept@) == position_views(self.sheeps@.take(i as int)).filter(safe),
                all_sheep(kept@),
                eaten + kept.len() == i,
            decreases self.sheeps.len() - i,
        {
            let sheep = self.sheeps[i];
            proof {
                let seen = position_views(self.sheeps@.take(i as int));
                assert(position_views(self.sheeps@.take(i + 1)) =~= seen.push(sheep.position@));
                seen.lemma_filter_push(sheep.position@, safe);
            }
            let ghost old_kept = kept@;
            if self.dragon_tiles.contains(sheep.position.row, sheep.position.column)
                && !self.hideouts.contains(sheep.position.row, sheep.position.column) {
                eaten += 1;
            } else {
                kept.push(sheep);
                assert(position_views(kept@) =~= position_views(old_kept).push(sheep.position@));
            }
            i += 1;
        }
        assert(self.sheeps@.take(i as int) =~= self.sheeps@);
        self.sheeps = kept;
        self.result = self.result + eaten;
    }

    /// Every sheep drifts one row down; those that leave the board are gone.
    fn drift(&mut self)
        requires
            old(self).wf(),
        ensures
            final(self).wf(),
            final(self).spec_hideouts() == old(self).spec_hideouts(),
            final(self).spec_rows() == old(self).spec_rows(),
            final(self).spec_columns() == old(self).spec_columns(),
            final(self)@.frontier == old(self)@.frontier,
            final(self)@.captured == old(self)@.captured,
            final(self)@.sheep == drifted(old(self)@.sheep, old(self).spec_rows()),
    {
        let rows = self.dragon_tiles.rows();
        let ghost stays = can_drift(rows as int);
        let mut moved: Vec<Tile> = Vec::new();
        let mut i: usize = 0;
        assert(self.sheeps@.take(0) =~= Seq::<Tile>::empty());
        assert(position_views(self.sheeps@.take(0)) =~= Seq::<(int, int)>::empty());
        assert(position_views(moved@) =~= Seq::<(int, int)>::empty().map_values(one_row_down()));
        while i < self.sheeps.len()
            invariant
                self.wf(),
                rows == self.spec_rows(),
                stays == can_drift(rows as int),
                i <= self.sheeps.len(),
                moved.len() <= i,
                all_sheep(moved@),
                position_views(moved@) == position_views(self.sheeps@.take(i as int)).filter(
                    stays,
                ).map_values(one_row_down()),
            decreases self.sheeps.len() - i,
        {
            let sheep = self.sheeps[i];
            proof {
                let seen = position_views(self.sheeps@.take(i as int));
                assert(position_views(self.sheeps@.take(i + 1)) =~= seen.push(sheep.position@));
                seen.lemma_filter_push(sheep.position@, stays);
            }
            let ghost old_moved = moved@;
            match sheep.pass_turns_sheep(1, rows) {
                Ok(Some(drifted_sheep)) => {
                    moved.push(drifted_sheep);
                    proof {
                        let seen = position_views(self.sheeps@.take(i as int));
                        assert(position_views(moved@) =~= position_views(old_moved).push(
                            (sheep.position.row + 1, sheep.position.column as int),
                        ));
                        assert(seen.filter(stays).push(sheep.position@).map_values(one_row_down())
                            =~= seen.filter(stays).map_values(one_row_down()).push(
                            (sheep.position.row + 1, sheep.position.column as int),
                        ));
                    }
                },
                Ok(None) => {},
                Err(_) => {},
            }
            i += 1;
        }
        assert(self.sheeps@.take(i as int) =~= self.sheeps@);
        self.sheeps = moved;
    }

    /// Plays one round: the dragon jumps and eats, the sheep drift, and the
    /// dragon eats again.
    pub fn advance_round(&mut self)
        requires
            old(self).wf(),
        ensures
            final(self).wf(),
            final(self).spec_hideouts() == old(self).spec_hideouts(),
            final(self).spec_rows() == old(self).spec_rows(),
            final(self).spec_columns() == old(self).spec_columns(),
            final(self)@ == round(
                old(self)@,
                old(self).spec_hideouts(),
                old(self).spec_rows(),
                old(self).spec_columns(),
            ),
    {
        self.dragon_tiles = self.dragon_tiles.jump_step();
        self.eat();
        self.drift();
        self.eat();
    }
}

/// Plays `rounds` rounds on the board and counts the sheep that the dragon
/// eats. All the rounds are played, also when no sheep is left.
///
/// Fails with `ZeroRounds` where `rounds` is zero, whatever the board; else
/// with `InvalidOrigin` where the board has no dragon or several, or where
/// its dragon stands off the board.
pub fn part2(chessboard: &Chessboard, rounds: u32) -> (result: Result<u64, PursuitError>)
    ensures
        match result {
            Ok(captured) => rounds > 0 && chessboard.origin() is Some && captured
                == simulate_rounds(chessboard, rounds as nat),
            Err(e) => if rounds == 0 {
                e == PursuitError::ZeroRounds
            } else {
                e == PursuitError::InvalidOrigin && chessboard.origin() is None
            },
        },
        result is Ok ==> result->Ok_0 <= positions_holding(chessboard.tiles@, TileValue::Sheep).len(),
{
    if rounds == 0 {
        return Err(PursuitError::ZeroRounds);
    }
    proof {
        lemma_captures_bounded_by_sheep(chessboard, rounds as nat);
    }
    let mut state = SimulationState::new(chessboard)?;
    let ghost hideouts = hideouts_of(chessboard);
    let ghost start = initial_state(chessboard);
    let mut played: u32 = 0;
    while played < rounds
        invariant
            played <= rounds,
            state.wf(),
            state.spec_hideouts() == hideouts,
            state.spec_rows() == chessboard.rows,
            state.spec_columns() == chessboard.columns,
            state@ == after_rounds(
                start,
                played as nat,
                hideouts,
                chessboard.rows as int,
                chessboard.columns as int,
            ),
        decreases rounds - played,
    {
        state.advance_round();
        played += 1;
    }
    Ok(state.captured())
}

} // verus!
