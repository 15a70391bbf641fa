//! Positions on a square board and the neighbour relation between them.

use vstd::prelude::*;

verus! {

/// A cell's place on the board: its row and its column, both counted from 0.
#[derive(Clone, Copy, Debug, PartialEq, Eq, Hash, Structural)]
pub struct Position {
    pub row: usize,
    pub column: usize,
}

/// Whether `position` lies on a board of `board_size` rows and columns.
pub open spec fn on_board(position: Position, board_size: int) -> bool {
    position.row < board_size && position.column < board_size
}

/// Two distinct positions whose rows differ by at most one and whose columns
/// differ by at most one: the eight directions of the compass.
pub open spec fn adjacent(a: Position, b: Position) -> bool {
    &&& a != b
    &&& -1 <= a.row - b.row <= 1
    &&& -1 <= a.column - b.column <= 1
}

/// `found` with the position `(row, column)` added, if that lies on the board.
pub open spec fn with_candidate(
    found: Seq<Position>,
    row: int,
    column: int,
    board_size: int,
) -> Seq<Position> {
    if 0 <= row < board_size && 0 <= column < board_size {
        found.push(Position { row: row as usize, column: column as usize })
    } else {
        found
    }
}

/// The neighbours of `position` on a board of the given size: the row above
/// from left to right, then left and right, then the row below.
pub open spec fn neighbor_positions(position: Position, board_size: int) -> Seq<Position> {
    let row = position.row as int;
    let column = position.column as int;
    let found = Seq::<Position>::empty();
    let found = with_candidate(found, row - 1, column - 1, board_size);
    let found = with_candidate(found, row - 1, column, board_size);
    let found = with_candidate(found, row - 1, column + 1, board_size);
    let found = with_candidate(found, row, column - 1, board_size);
    let found = with_candidate(found, row, column + 1, board_size);
    let found = with_candidate(found, row + 1, column - 1, board_size);
    let found = with_candidate(found, row + 1, column, board_size);
    let found = with_candidate(found, row + 1, column + 1, board_size);
    found
}

/// Adds the position `(row, column)` to `found` if it lies on the board.
/// `None` stands for a coordinate that no `usize` holds.
fn push_candidate(
    found: &mut Vec<Position>,
    row: Option<usize>,
    column: Option<usize>,
    board_size: usize,
)
    ensures
        final(found)@ == match (row, column) {
            (Some(r), Some(c)) => with_candidate(
                old(found)@,
                r as int,
                c as int,
                board_size as int,
            ),
            _ => old(found)@,
        },
{
    if let Some(r) = row {
        if let Some(c) = column {
            let candidate = Position::new(r, c);
            if candidate.is_valid_for_size(board_size) {
                found.push(candidate);
            }
        }
    }
}

impl Position {
    pub fn new(row: usize, column: usize) -> (position: Position)
        ensures
            position == (Position { row, column }),
    {
        Position { row, column }
    }

    /// The up to eight positions around this one that lie on the board.
    pub fn get_neighbor_positions(&self, board_size: usize) -> (neighbors: Vec<Position>)
        ensures
            neighbors@ == neighbor_positions(*self, board_size as int),
    {
        let above = self.row.checked_sub(1);
        let below = self.row.checked_add(1);
        let left = self.column.checked_sub(1);
        let right = self.column.checked_add(1);
        let mut neighbors: Vec<Position> = Vec::new();
        push_candidate(&mut neighbors, above, left, board_size);
        push_candidate(&mut neighbors, above, Some(self.column), board_size);
        push_candidate(&mut neighbors, above, right, board_size);
        push_candidate(&mut neighbors, Some(self.row), left, board_size);
        push_candidate(&mut neighbors, Some(self.row), right, board_size);
        push_candidate(&mut neighbors, below, left, board_size);
        push_candidate(&mut neighbors, below, Some(self.column), board_size);
        push_candidate(&mut neighbors, below, right, board_size);
        neighbors
    }

    /// Whether this position lies on a board of `board_size` rows and columns.
    pub fn is_valid_for_size(&self, board_size: usize) -> (valid: bool)
        ensures
            valid == on_board(*self, board_size as int),
    {
        self.row < board_size && self.column < board_size
    }
}

/// The neighbours of a position are exactly the positions on the board that
/// are adjacent to it, and none is listed twice.
pub proof fn lemma_neighbors_are_adjacent(position: Position, board_size: int)
    requires
        board_size <= usize::MAX,
    ensures
        neighbor_positions(position, board_size).no_duplicates(),
        forall|other: Position|
            neighbor_positions(position, board_size).contains(other) <==> (on_board(
                other,
                board_size,
            ) && adjacent(position, other)),
{
    let found = neighbor_positions(position, board_size);
    assert forall|other: Position| on_board(other, board_size) && adjacent(position, other)
        implies found.contains(other) by {
        let row = position.row as int;
        let column = position.column as int;
        let f0 = Seq::<Position>::empty();
        let f1 = with_candidate(f0, row - 1, column - 1, board_size);
        let f2 = with_candidate(f1, row - 1, column, board_size);
        let f3 = with_candidate(f2, row - 1, column + 1, board_size);
        let f4 = with_candidate(f3, row, column - 1, board_size);
        let f5 = with_candidate(f4, row, column + 1, board_size);
        let f6 = with_candidate(f5, row + 1, column - 1, board_size);
        let f7 = with_candidate(f6, row + 1, column, board_size);
        let f8 = with_candidate(f7, row + 1, column + 1, board_size);
        lemma_candidate_kept(f0, row - 1, column - 1, board_size, other);
        lemma_candidate_kept(f1, row - 1, column, board_size, other);
        lemma_candidate_kept(f2, row - 1, column + 1, board_size, other);
        lemma_candidate_kept(f3, row, column - 1, board_size, other);
        lemma_candidate_kept(f4, row, column + 1, board_size, other);
        lemma_candidate_kept(f5, row + 1, column - 1, board_size, other);
        lemma_candidate_kept(f6, row + 1, column, board_size, other);
        lemma_candidate_kept(f7, row + 1, column + 1, board_size, other);
    }
}

/// Whether a row or column is the first or the last of the board.
pub open spec fn at_edge(coordinate: int, board_size: int) -> bool {
    coordinate == 0 || coordinate == board_size - 1
}

/// On a board of two rows or more, a cell in a corner has three neighbours,
/// another cell at an edge has five, and a cell inside has eight.
pub proof fn lemma_neighbor_count(position: Position, board_size: int)
    requires
        on_board(position, board_size),
        2 <= board_size <= usize::MAX,
    ensures
        neighbor_positions(position, board_size).len() == if at_edge(
            position.row as int,
            board_size,
        ) && at_edge(position.column as int, board_size) {
            3int
        } else if at_edge(position.row as int, board_size) || at_edge(
            position.column as int,
            board_size,
        ) {
            5int
        } else {
            8int
        },
{
}

/// What `with_candidate` holds: what it was given, and the candidate if it
/// lies on the board.
proof fn lemma_candidate_kept(
    found: Seq<Position>,
    row: int,
    column: int,
    board_size: int,
    other: Position,
)
    requires
        board_size <= usize::MAX,
    ensures
        with_candidate(found, row, column, board_size).contains(other) <==> (found.contains(other)
            || (other.row == row && other.column == column && on_board(other, board_size))),
{
    let grown = with_candidate(found, row, column, board_size);
    if 0 <= row < board_size && 0 <= column < board_size {
        let candidate = Position { row: row as usize, column: column as usize };
        if found.contains(other) {
            let i = choose|i: int| 0 <= i < found.len() && found[i] == other;
            assert(grown[i] == other);
        }
        if other == candidate {
            assert(grown[found.len() as int] == other);
        }
    }
}

/// The positions of a board of `board_size` rows and columns.
pub open spec fn all_positions(board_size: int) -> Set<Position> {
    Set::new(|position: Position| on_board(position, board_size))
}

/// The positions of the first `rows` rows whose column is below `columns`.
spec fn positions_within(rows: int, columns: int) -> Set<Position> {
    Set::new(|position: Position| position.row < rows && position.column < columns)
}

/// The positions of one row whose column is below `columns`.
spec fn positions_in_row(row: int, columns: int) -> Set<Position> {
    Set::new(|position: Position| position.row == row && position.column < columns)
}

proof fn lemma_row_finite(row: int, columns: int)
    requires
        0 <= row <= usize::MAX,
        0 <= columns <= usize::MAX,
    ensures
        positions_in_row(row, columns).finite(),
    decreases columns,
{
    if columns == 0 {
        assert(positions_in_row(row, columns) =~= Set::<Position>::empty());
    } else {
        lemma_row_finite(row, columns - 1);
        let added = Position { row: row as usize, column: (columns - 1) as usize };
        assert(positions_in_row(row, columns) =~= positions_in_row(row, columns - 1).insert(
            added,
        ));
    }
}

proof fn lemma_rows_finite(rows: int, columns: int)
    requires
        0 <= rows <= usize::MAX,
        0 <= columns <= usize::MAX,
    ensures
        positions_within(rows, columns).finite(),
    decreases rows,
{
    if rows == 0 {
        assert(positions_within(rows, columns) =~= Set::<Position>::empty());
    } else {
        lemma_rows_finite(rows - 1, columns);
        lemma_row_finite(rows - 1, columns);
        assert(positions_within(rows, columns) =~= positions_within(rows - 1, columns).union(
            positions_in_row(rows - 1, columns),
        ));
    }
}

/// A board has finitely many positions.
pub proof fn lemma_all_positions_finite(board_size: int)
    requires
        0 <= board_size <= usize::MAX,
    ensures
        all_positions(board_size).finite(),
{
    lemma_rows_finite(board_size, board_size);
    assert(all_positions(board_size) =~= positions_within(board_size, board_size));
}

} // verus!
