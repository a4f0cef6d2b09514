//! Where the dragon can stand after a number of jumps.
//!
//! A jump moves the dragon two tiles along one axis and one tile along the
//! other. The frontier of depth `k` is the set of tiles on which a chain of
//! exactly `k` jumps can end when every tile of the chain lies on the board.

use vstd::prelude::*;
use crate::quest10::tiles::within_bounds;

verus! {

/// Whether one jump leads from `from` to `to`.
pub open spec fn is_jump(from: (int, int), to: (int, int)) -> bool {
    let dr = to.0 - from.0;
    let dc = to.1 - from.1;
    ||| (dr == 2 || dr == -2) && (dc == 1 || dc == -1)
    ||| (dr == 1 || dr == -1) && (dc == 2 || dc == -2)
}

/// The tiles of the board that one jump from `from` reaches.
pub open spec fn jump_targets(from: (int, int), rows: int, columns: int) -> Set<(int, int)> {
    Set::new(|p: (int, int)| within_bounds(p, rows, columns) && is_jump(from, p))
}

/// The tiles of the board that one jump from some member of `s` reaches.
/// A tile that several members reach is in the result once.
pub open spec fn jump_step(s: Set<(int, int)>, rows: int, columns: int) -> Set<(int, int)> {
    Set::new(
        |p: (int, int)|
            within_bounds(p, rows, columns) && exists|q: (int, int)|
                #![trigger s.contains(q)]
                s.contains(q) && is_jump(q, p),
    )
}

/// The frontier of depth `jumps`: the tiles on which exactly `jumps` jumps
/// from `origin` can end.
pub open spec fn frontier(origin: (int, int), jumps: nat, rows: int, columns: int) -> Set<
    (int, int),
>
    decreases jumps,
{
    if jumps == 0 {
        set![origin]
    } else {
        jump_step(frontier(origin, (jumps - 1) as nat, rows, columns), rows, columns)
    }
}

/// Whether `p` comes before the tile at row `r` and column `c` when the
/// board is read row by row.
pub open spec fn reads_before(p: (int, int), r: int, c: int) -> bool {
    p.0 < r || (p.0 == r && p.1 < c)
}

/// The part of `jump_step` that the members before the tile at `r`, `c`
/// contribute.
pub open spec fn jump_step_before(
    s: Set<(int, int)>,
    rows: int,
    columns: int,
    r: int,
    c: int,
) -> Set<(int, int)> {
    Set::new(
        |p: (int, int)|
            within_bounds(p, rows, columns) && exists|q: (int, int)|
                #![trigger s.contains(q)]
                s.contains(q) && reads_before(q, r, c) && is_jump(q, p),
    )
}

/// Whether every member of `s` lies on the board.
pub open spec fn all_within_bounds(s: Set<(int, int)>, rows: int, columns: int) -> bool {
    forall|p: (int, int)| s.contains(p) ==> within_bounds(p, rows, columns)
}

pub proof fn lemma_jump_step_before_start(s: Set<(int, int)>, rows: int, columns: int)
    requires
        all_within_bounds(s, rows, columns),
    ensures
        jump_step_before(s, rows, columns, 0, 0) == Set::<(int, int)>::empty(),
{
    assert(jump_step_before(s, rows, columns, 0, 0) =~= Set::<(int, int)>::empty());
}

pub proof fn lemma_jump_step_before_next_tile(
    s: Set<(int, int)>,
    rows: int,
    columns: int,
    r: int,
    c: int,
)
    ensures
        jump_step_before(s, rows, columns, r, c + 1) == if s.contains((r, c)) {
            jump_step_before(s, rows, columns, r, c).union(jump_targets((r, c), rows, columns))
        } else {
            jump_step_before(s, rows, columns, r, c)
        },
{
    let before = jump_step_before(s, rows, columns, r, c);
    let after = jump_step_before(s, rows, columns, r, c + 1);
    let grown = if s.contains((r, c)) {
        before.union(jump_targets((r, c), rows, columns))
    } else {
        before
    };
    assert forall|p: (int, int)| after.contains(p) implies grown.contains(p) by {
        let q = choose|q: (int, int)|
            #![trigger s.contains(q)]
            s.contains(q) && reads_before(q, r, c + 1) && is_jump(q, p);
        if q != (r, c) {
            assert(reads_before(q, r, c));
        }
    }
    assert forall|p: (int, int)| grown.contains(p) implies after.contains(p) by {
        if before.contains(p) {
            let q = choose|q: (int, int)|
                #![trigger s.contains(q)]
                s.contains(q) && reads_before(q, r, c) && is_jump(q, p);
            assert(reads_before(q, r, c + 1));
        } else {
            assert(s.contains((r, c)) && reads_before((r, c), r, c + 1));
        }
    }
    assert(after =~= grown);
}

pub proof fn lemma_jump_step_before_next_row(
    s: Set<(int, int)>,
    rows: int,
    columns: int,
    r: int,
)
    requires
        all_within_bounds(s, rows, columns),
    ensures
        jump_step_before(s, rows, columns, r, columns) == jump_step_before(
            s,
            rows,
            columns,
            r + 1,
            0,
        ),
{
    let a = jump_step_before(s, rows, columns, r, columns);
    let b = jump_step_before(s, rows, columns, r + 1, 0);
    assert forall|p: (int, int)| a.contains(p) implies b.contains(p) by {
        let q = choose|q: (int, int)|
            #![trigger s.contains(q)]
            s.contains(q) && reads_before(q, r, columns) && is_jump(q, p);
        assert(reads_before(q, r + 1, 0));
    }
    assert forall|p: (int, int)| b.contains(p) implies a.contains(p) by {
        let q = choose|q: (int, int)|
            #![trigger s.contains(q)]
            s.contains(q) && reads_before(q, r + 1, 0) && is_jump(q, p);
        assert(reads_before(q, r, columns));
    }
    assert(a =~= b);
}

pub proof fn lemma_jump_step_before_end(s: Set<(int, int)>, rows: int, columns: int)
    requires
        all_within_bounds(s, rows, columns),
    ensures
        jump_step_before(s, rows, columns, rows, 0) == jump_step(s, rows, columns),
{
    let a = jump_step_before(s, rows, columns, rows, 0);
    let b = jump_step(s, rows, columns);
    assert forall|p: (int, int)| b.contains(p) implies a.contains(p) by {
        let q = choose|q: (int, int)| #![trigger s.contains(q)] s.contains(q) && is_jump(q, p);
        assert(reads_before(q, rows, 0));
    }
    assert(a =~= b);
}

/// Every frontier of a dragon that starts on the board lies on the board.
pub proof fn lemma_frontier_within_bounds(origin: (int, int), jumps: nat, rows: int, columns: int)
    requires
        within_bounds(origin, rows, columns),
    ensures
        all_within_bounds(frontier(origin, jumps, rows, columns), rows, columns),
    decreases jumps,
{
    if jumps > 0 {
        lemma_frontier_within_bounds(origin, (jumps - 1) as nat, rows, columns);
    }
}

/// Whether `chain` is a chain of jumps from `origin` on the board: it
/// starts at `origin`, each further tile is one jump from the tile before
/// it, and each further tile lies on the board.
pub open spec fn is_jump_chain(
    chain: Seq<(int, int)>,
    origin: (int, int),
    rows: int,
    columns: int,
) -> bool {
    &&& chain.len() > 0
    &&& chain[0] == origin
    &&& forall|i: int|
        0 < i < chain.len() ==> is_jump(chain[i - 1], #[trigger] chain[i]) && within_bounds(
            chain[i],
            rows,
            columns,
        )
}

/// A chain of jumps ends on the frontier of the depth that is the number
/// of its jumps.
pub proof fn lemma_chain_ends_on_frontier(
    chain: Seq<(int, int)>,
    origin: (int, int),
    rows: int,
    columns: int,
)
    requires
        is_jump_chain(chain, origin, rows, columns),
    ensures
        frontier(origin, (chain.len() - 1) as nat, rows, columns).contains(chain.last()),
    decreases chain.len(),
{
    if chain.len() > 1 {
        let before = chain.drop_last();
        assert forall|i: int| 0 < i < before.len() implies is_jump(
            before[i - 1],
            #[trigger] before[i],
        ) && within_bounds(before[i], rows, columns) by {
            assert(before[i] == chain[i]);
        }
        lemma_chain_ends_on_frontier(before, origin, rows, columns);
        let earlier = frontier(origin, (chain.len() - 2) as nat, rows, columns);
        assert(earlier.contains(before.last()));
        assert(is_jump(chain[chain.len() - 2], chain[chain.len() - 1]));
    }
}

/// Every tile of a frontier is the end of a chain of as many jumps as the
/// depth of the frontier.
pub proof fn lemma_frontier_has_chain(
    origin: (int, int),
    jumps: nat,
    rows: int,
    columns: int,
    p: (int, int),
) -> (chain: Seq<(int, int)>)
    requires
        frontier(origin, jumps, rows, columns).contains(p),
    ensures
        is_jump_chain(chain, origin, rows, columns),
        chain.len() == jumps + 1,
        chain.last() == p,
    decreases jumps,
{
    if jumps == 0 {
        seq![origin]
    } else {
        let earlier = frontier(origin, (jumps - 1) as nat, rows, columns);
        let q = choose|q: (int, int)| #![trigger earlier.contains(q)] earlier.contains(q) && is_jump(q, p);
        let before = lemma_frontier_has_chain(origin, (jumps - 1) as nat, rows, columns, q);
        let chain = before.push(p);
        assert forall|i: int| 0 < i < chain.len() implies is_jump(
            chain[i - 1],
            #[trigger] chain[i],
        ) && within_bounds(chain[i], rows, columns) by {
            if i < before.len() {
                assert(chain[i] == before[i]);
            }
        }
        chain
    }
}

} // verus!
