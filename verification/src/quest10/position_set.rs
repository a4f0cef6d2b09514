//! A set of board positions, kept as one flag per tile of the board.

use vstd::prelude::*;
use crate::quest10::reach::all_within_bounds;
use crate::quest10::reach::frontier;
use crate::quest10::reach::jump_step;
use crate::quest10::reach::jump_step_before;
use crate::quest10::reach::jump_targets;
use crate::quest10::reach::lemma_jump_step_before_end;
use crate::quest10::reach::lemma_jump_step_before_next_row;
use crate::quest10::reach::lemma_jump_step_before_next_tile;
use crate::quest10::reach::lemma_jump_step_before_start;
use crate::quest10::reach::reads_before;
use crate::quest10::tiles::within_bounds;
use crate::quest10::tiles::BoardPosition;

verus! {

/// A set of positions of a board of fixed dimensions. A position is in the
/// set at most once, however often it is inserted.
#[derive(Debug)]
pub struct PositionSet {
    rows: usize,
    columns: usize,
    cells: Vec<Vec<bool>>,
}

impl View for PositionSet {
    type V = Set<(int, int)>;

    closed spec fn view(&self) -> Set<(int, int)> {
        Set::new(
            |p: (int, int)|
                within_bounds(p, self.rows as int, self.columns as int) && self.cells[p.0][p.1],
        )
    }
}

impl PositionSet {
    /// The set holds one flag for every tile of its board.
    pub closed spec fn wf(&self) -> bool {
        &&& self.cells.len() == self.rows
        &&& forall|r: int| 0 <= r < self.rows ==> (#[trigger] self.cells[r]).len() == self.columns
    }

    /// The number of rows of the board whose positions the set holds.
    pub closed spec fn spec_rows(&self) -> int {
        self.rows as int
    }

    /// The number of columns of the board whose positions the set holds.
    pub closed spec fn spec_columns(&self) -> int {
        self.columns as int
    }

    /// Every member lies on the board.
    pub proof fn lemma_members_within_bounds(&self)
        requires
            self.wf(),
        ensures
            all_within_bounds(self@, self.spec_rows(), self.spec_columns()),
    {
    }

    /// The number of rows of the board.
    pub fn rows(&self) -> (n: usize)
        ensures
            n == self.spec_rows(),
    {
        self.rows
    }

    /// The number of columns of the board.
    pub fn columns(&self) -> (n: usize)
        ensures
            n == self.spec_columns(),
    {
        self.columns
    }

    /// The empty set over a board of `rows` by `columns` tiles.
    pub fn new(rows: usize, columns: usize) -> (s: PositionSet)
        ensures
            s.wf(),
            s@ == Set::<(int, int)>::empty(),
            s.spec_rows() == rows,
            s.spec_columns() == columns,
    {
        let mut cells: Vec<Vec<bool>> = Vec::new();
        let mut r: usize = 0;
        while r < rows
            invariant
                r <= rows,
                cells.len() == r,
                forall|i: int| 0 <= i < r ==> (#[trigger] cells[i]).len() == columns,
                forall|i: int, j: int| 0 <= i < r && 0 <= j < columns ==> !(#[trigger] cells[i][j]),
            decreases rows - r,
        {
            let mut line: Vec<bool> = Vec::new();
            let mut c: usize = 0;
            while c < columns
                invariant
                    c <= columns,
                    line.len() == c,
                    forall|j: int| 0 <= j < c ==> !(#[trigger] line[j]),
                decreases columns - c,
            {
                line.push(false);
                c += 1;
            }
            cells.push(line);
            r += 1;
        }
        let s = PositionSet { rows, columns, cells };
        assert(s@ =~= Set::<(int, int)>::empty());
        s
    }

    /// Whether the position at `row` and `column` is in the set.
    pub fn contains(&self, row: usize, column: usize) -> (b: bool)
        requires
            self.wf(),
        ensures
            b == self@.contains((row as int, column as int)),
    {
        row < self.rows && column < self.columns && self.cells[row][column]
    }

    /// Adds the position at `row` and `column` if it lies on the board, and
    /// says whether it does.
    pub fn insert(&mut self, row: usize, column: usize) -> (on_board: bool)
        requires
            old(self).wf(),
        ensures
            final(self).wf(),
            on_board == within_bounds(
                (row as int, column as int),
                old(self).spec_rows(),
                old(self).spec_columns(),
            ),
            final(self).spec_rows() == old(self).spec_rows(),
            final(self).spec_columns() == old(self).spec_columns(),
            on_board ==> final(self)@ == old(self)@.insert((row as int, column as int)),
            !on_board ==> final(self)@ == old(self)@,
    {
        if row < self.rows && column < self.columns {
            self.cells[row][column] = true;
            assert(self@ =~= old(self)@.insert((row as int, column as int)));
            true
        } else {
            false
        }
    }
    /// Adds every tile of the board that one jump from the tile at `row` and
    /// `column` reaches.
    pub fn insert_jumps_from(&mut self, row: usize, column: usize)
        requires
            old(self).wf(),
            within_bounds(
                (row as int, column as int),
                old(self).spec_rows(),
                old(self).spec_columns(),
            ),
        ensures
            final(self).wf(),
            final(self).spec_rows() == old(self).spec_rows(),
            final(self).spec_columns() == old(self).spec_columns(),
            final(self)@ == old(self)@.union(
                jump_targets(
                    (row as int, column as int),
                    old(self).spec_rows(),
                    old(self).spec_columns(),
                ),
            ),
    {
        let rows = self.rows;
        let columns = self.columns;
        // Two rows up.
        if row > 1 {
            if column > 0 {
                self.insert(row - 2, column - 1);
            }
            if columns - column > 1 {
                self.insert(row - 2, column + 1);
            }
        }
        // Two columns to the right.
        if columns - column > 2 {
            if row > 0 {
                self.insert(row - 1, column + 2);
            }
            if rows - row > 1 {
                self.insert(row + 1, column + 2);
            }
        }
        // Two rows down.
        if rows - row > 2 {
            if column > 0 {
                self.insert(row + 2, column - 1);
            }
            if columns - column > 1 {
                self.insert(row + 2, column + 1);
            }
        }
        // Two columns to the left.
        if column > 1 {
            if row > 0 {
                self.insert(row - 1, column - 2);
            }
            if rows - row > 1 {
                self.insert(row + 1, column - 2);
            }
        }
        assert(self@ =~= old(self)@.union(
            jump_targets((row as int, column as int), rows as int, columns as int),
        ));
    }

    /// The set of the tiles that one jump from some member reaches.
    pub fn jump_step(&self) -> (next: PositionSet)
        requires
            self.wf(),
        ensures
            next.wf(),
            next.spec_rows() == self.spec_rows(),
            next.spec_columns() == self.spec_columns(),
            next@ == jump_step(self@, self.spec_rows(), self.spec_columns()),
    {
        let rows = self.rows;
        let columns = self.columns;
        let mut next = PositionSet::new(rows, columns);
        proof {
            self.lemma_members_within_bounds();
            lemma_jump_step_before_start(self@, rows as int, columns as int);
        }
        let mut r: usize = 0;
        while r < rows
            invariant
                self.wf(),
                next.wf(),
                rows == self.spec_rows() == next.spec_rows(),
                columns == self.spec_columns() == next.spec_columns(),
                all_within_bounds(self@, rows as int, columns as int),
                r <= rows,
                next@ == jump_step_before(self@, rows as int, columns as int, r as int, 0),
            decreases rows - r,
        {
            let mut c: usize = 0;
            while c < columns
                invariant
                    self.wf(),
                    next.wf(),
                    rows == self.spec_rows() == next.spec_rows(),
                    columns == self.spec_columns() == next.spec_columns(),
                    r < rows,
                    c <= columns,
                    next@ == jump_step_before(
                        self@,
                        rows as int,
                        columns as int,
                        r as int,
                        c as int,
                    ),
                decreases columns - c,
            {
                proof {
                    lemma_jump_step_before_next_tile(
                        self@,
                        rows as int,
                        columns as int,
                        r as int,
                        c as int,
                    );
                }
                if self.contains(r, c) {
                    next.insert_jumps_from(r, c);
                }
                c += 1;
            }
            proof {
                lemma_jump_step_before_next_row(self@, rows as int, columns as int, r as int);
            }
            r += 1;
        }
        proof {
            lemma_jump_step_before_end(self@, rows as int, columns as int);
        }
        next
    }

    /// Adds every member of `other`, a set over a board of the same
    /// dimensions.
    pub fn union_with(&mut self, other: &PositionSet)
        requires
            old(self).wf(),
            other.wf(),
            other.spec_rows() == old(self).spec_rows(),
            other.spec_columns() == old(self).spec_columns(),
        ensures
            final(self).wf(),
            final(self).spec_rows() == old(self).spec_rows(),
            final(self).spec_columns() == old(self).spec_columns(),
            final(self)@ == old(self)@.union(other@),
    {
        let rows = self.rows;
        let columns = self.columns;
        let mut r: usize = 0;
        while r < rows
            invariant
                self.wf(),
                other.wf(),
                rows == self.spec_rows() == other.spec_rows(),
                columns == self.spec_columns() == other.spec_columns(),
                r <= rows,
                self@ == old(self)@.union(other@.filter(|p: (int, int)| reads_before(p, r as int, 0))),
            decreases rows - r,
        {
            let mut c: usize = 0;
            while c < columns
                invariant
                    self.wf(),
                    other.wf(),
                    rows == self.spec_rows() == other.spec_rows(),
                    columns == self.spec_columns() == other.spec_columns(),
                    r < rows,
                    c <= columns,
                    self@ == old(self)@.union(
                        other@.filter(|p: (int, int)| reads_before(p, r as int, c as int)),
                    ),
                decreases columns - c,
            {
                if other.contains(r, c) {
                    self.insert(r, c);
                }
                c += 1;
                assert(self@ =~= old(self)@.union(
                    other@.filter(|p: (int, int)| reads_before(p, r as int, c as int)),
                ));
            }
            r += 1;
            proof {
                other.lemma_members_within_bounds();
                assert(self@ =~= old(self)@.union(
                    other@.filter(|p: (int, int)| reads_before(p, r as int, 0)),
                ));
            }
        }
        proof {
            other.lemma_members_within_bounds();
            assert(self@ =~= old(self)@.union(other@));
        }
    }
    /// The members, row by row and within a row from left to right.
    pub fn positions(&self) -> (v: Vec<BoardPosition>)
        requires
            self.wf(),
        ensures
            forall|i: int| 0 <= i < v.len() ==> self@.contains(#[trigger] v[i]@),
            forall|p: (int, int)|
                self@.contains(p) ==> exists|i: int| 0 <= i < v.len() && #[trigger] v[i]@ == p,
            forall|i: int, j: int|
                0 <= i < j < v.len() ==> reads_before(
                    #[trigger] v[i]@,
                    (#[trigger] v[j]).row as int,
                    v[j].column as int,
                ),
    {
        let rows = self.rows;
        let columns = self.columns;
        let mut v: Vec<BoardPosition> = Vec::new();
        let mut r: usize = 0;
        while r < rows
            invariant
                self.wf(),
                rows == self.spec_rows(),
                columns == self.spec_columns(),
                r <= rows,
                forall|i: int|
                    0 <= i < v.len() ==> self@.contains(#[trigger] v[i]@) && reads_before(
                        v[i]@,
                        r as int,
                        0,
                    ),
                forall|p: (int, int)|
                    self@.contains(p) && reads_before(p, r as int, 0) ==> exists|i: int|
                        0 <= i < v.len() && #[trigger] v[i]@ == p,
                forall|i: int, j: int|
                    0 <= i < j < v.len() ==> reads_before(
                        #[trigger] v[i]@,
                        (#[trigger] v[j]).row as int,
                        v[j].column as int,
                    ),
            decreases rows - r,
        {
            let mut c: usize = 0;
            while c < columns
                invariant
                    self.wf(),
                    rows == self.spec_rows(),
                    columns == self.spec_columns(),
                    r < rows,
                    c <= columns,
                    forall|i: int|
                        0 <= i < v.len() ==> self@.contains(#[trigger] v[i]@) && reads_before(
                            v[i]@,
                            r as int,
                            c as int,
                        ),
                    forall|p: (int, int)|
                        self@.contains(p) && reads_before(p, r as int, c as int) ==> exists|i: int|
                            0 <= i < v.len() && #[trigger] v[i]@ == p,
                    forall|i: int, j: int|
                        0 <= i < j < v.len() ==> reads_before(
                            #[trigger] v[i]@,
                            (#[trigger] v[j]).row as int,
                            v[j].column as int,
                        ),
                decreases columns - c,
            {
                let ghost before = v@;
                if self.contains(r, c) {
                    v.push(BoardPosition { row: r, column: c });
                }
                assert forall|p: (int, int)|
                    self@.contains(p) && reads_before(p, r as int, c as int + 1) implies exists|
                    i: int,
                | 0 <= i < v.len() && #[trigger] v[i]@ == p by {
                    if reads_before(p, r as int, c as int) {
                        let i = choose|i: int| 0 <= i < before.len() && #[trigger] before[i]@ == p;
                        assert(v[i]@ == p);
                    } else {
                        assert(p == (r as int, c as int));
                        assert(v[v.len() - 1]@ == p);
                    }
                }
                c += 1;
            }
            r += 1;
        }
        proof {
            self.lemma_members_within_bounds();
        }
        v
    }
    /// The frontier of depth `depth` of a dragon that starts at
    /// `origin_row` and `origin_column` on a board of `rows` by `columns`
    /// tiles.
    pub fn frontier(
        rows: usize,
        columns: usize,
        origin_row: usize,
        origin_column: usize,
        depth: usize,
    ) -> (reached: PositionSet)
        requires
            within_bounds((origin_row as int, origin_column as int), rows as int, columns as int),
        ensures
            reached.wf(),
            reached.spec_rows() == rows,
            reached.spec_columns() == columns,
            reached@ == frontier(
                (origin_row as int, origin_column as int),
                depth as nat,
                rows as int,
                columns as int,
            ),
    {
        let mut reached = PositionSet::new(rows, columns);
        reached.insert(origin_row, origin_column);
        assert(reached@ =~= set![(origin_row as int, origin_column as int)]);
        let mut done: usize = 0;
        while done < depth
            invariant
                done <= depth,
                reached.wf(),
                reached.spec_rows() == rows,
                reached.spec_columns() == columns,
                reached@ == frontier(
                    (origin_row as int, origin_column as int),
                    done as nat,
                    rows as int,
                    columns as int,
                ),
            decreases depth - done,
        {
            reached = reached.jump_step();
            done += 1;
        }
        reached
    }
}

} // verus!
