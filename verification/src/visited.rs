//! The cells that the walk in progress has stepped on.

use crate::position::{all_positions, lemma_all_positions_finite, on_board, Position};
use vstd::prelude::*;

verus! {

/// A set of positions of one board, kept as a mark for every cell.
#[derive(Debug)]
pub struct VisitedCells {
    size: usize,
    marks: Vec<Vec<bool>>,
}

impl View for VisitedCells {
    type V = Set<Position>;

    /// The marked positions.
    closed spec fn view(&self) -> Set<Position> {
        Set::new(
            |position: Position|
                on_board(position, self.size as int)
                    && self.marks@[position.row as int]@[position.column as int],
        )
    }
}

impl VisitedCells {
    /// There is a mark for every cell of the board.
    pub closed spec fn wf(&self) -> bool {
        &&& self.marks@.len() == self.size
        &&& forall|row: int|
            0 <= row < self.size ==> (#[trigger] self.marks@[row])@.len() == self.size
    }

    /// The size of the board whose cells are marked.
    pub closed spec fn board_size(&self) -> usize {
        self.size
    }

    /// The number of cells that are not marked.
    pub open spec fn unvisited(&self) -> nat {
        all_positions(self.board_size() as int).difference(self@).len()
    }

    /// The set for a board of the given size with no cell marked.
    pub fn new(board_size: usize) -> (visited: VisitedCells)
        ensures
            visited.wf(),
            visited.board_size() == board_size,
            visited@ == Set::<Position>::empty(),
    {
        let mut marks: Vec<Vec<bool>> = Vec::new();
        let mut row: usize = 0;
        while row < board_size
            invariant
                row <= board_size,
                marks@.len() == row,
                forall|r: int| 0 <= r < row ==> (#[trigger] marks@[r])@.len() == board_size,
                forall|r: int, c: int|
                    0 <= r < row && 0 <= c < board_size ==> !(#[trigger] marks@[r]@[c]),
            decreases board_size - row,
        {
            let mut line: Vec<bool> = Vec::new();
            let mut column: usize = 0;
            while column < board_size
                invariant
                    column <= board_size,
                    line@.len() == column,
                    forall|c: int| 0 <= c < column ==> !(#[trigger] line@[c]),
                decreases board_size - column,
            {
                line.push(false);
                column += 1;
            }
            marks.push(line);
            row += 1;
        }
        let visited = VisitedCells { size: board_size, marks };
        assert(visited@ =~= Set::<Position>::empty());
        visited
    }

    /// Whether the cell at `position` is marked.
    pub fn contains(&self, position: &Position) -> (marked: bool)
        requires
            self.wf(),
        ensures
            marked == self@.contains(*position),
    {
        position.is_valid_for_size(self.size) && self.marks[position.row][position.column]
    }

    /// Marks the cell at `position`.
    pub fn insert(&mut self, position: Position)
        requires
            old(self).wf(),
            on_board(position, old(self).board_size() as int),
        ensures
            final(self).wf(),
            final(self).board_size() == old(self).board_size(),
            final(self)@ == old(self)@.insert(position),
            !old(self)@.contains(position) ==> final(self).unvisited() < old(self).unvisited(),
    {
        self.marks[position.row][position.column] = true;
        proof {
            assert(self@ =~= old(self)@.insert(position));
            let all = all_positions(self.size as int);
            lemma_all_positions_finite(self.size as int);
            if !old(self)@.contains(position) {
                assert(all.difference(self@) =~= all.difference(old(self)@).remove(position));
            }
        }
    }

    /// Takes the mark off the cell at `position`.
    pub fn remove(&mut self, position: &Position)
        requires
            old(self).wf(),
            on_board(*position, old(self).board_size() as int),
        ensures
            final(self).wf(),
            final(self).board_size() == old(self).board_size(),
            final(self)@ == old(self)@.remove(*position),
    {
        self.marks[position.row][position.column] = false;
        assert(self@ =~= old(self)@.remove(*position));
    }
}

} // verus!
