//! The board: a square grid of cells, each with its letter token and its
//! neighbours.

use crate::letters::{distinct_tokens, first_occurrences, grid_of, token_values};
use crate::position::{neighbor_positions, on_board, Position};
use vstd::prelude::*;

verus! {

/// A grid of tokens is square, and none of its tokens is empty.
pub open spec fn square_grid(grid: Seq<Seq<Seq<char>>>) -> bool {
    forall|row: int|
        0 <= row < grid.len() ==> {
            &&& (#[trigger] grid[row]).len() == grid.len()
            &&& forall|column: int|
                0 <= column < grid.len() ==> (#[trigger] grid[row][column]).len() > 0
        }
}

/// The token of the cell at a position: the letters that the cell contributes
/// to a word.
pub open spec fn token_at(grid: Seq<Seq<Seq<char>>>, position: Position) -> Seq<char> {
    grid[position.row as int][position.column as int]
}

/// One cell of the board.
#[derive(Debug)]
pub struct BoardCell {
    pub position: Position,
    pub letter: String,
    pub neighbors: Vec<Position>,
}

impl BoardCell {
    /// A cell that does not know its neighbours yet.
    pub fn new(position: Position, letter: String) -> (cell: BoardCell)
        ensures
            cell.position == position,
            cell.letter == letter,
            cell.neighbors@ == Seq::<Position>::empty(),
    {
        BoardCell { position, letter, neighbors: Vec::new() }
    }

    /// The positions of the cells around this one on a board of the given size.
    pub fn get_neighbors(&self, board_size: usize) -> (neighbors: Vec<Position>)
        ensures
            neighbors@ == neighbor_positions(self.position, board_size as int),
    {
        self.position.get_neighbor_positions(board_size)
    }

    /// Whether this is the cell at `(row, column)` of a board of the given
    /// size, with a letter and with its neighbours in place.
    pub open spec fn placed_at(&self, row: int, column: int, board_size: int) -> bool {
        &&& self.position.row == row
        &&& self.position.column == column
        &&& self.letter@.len() > 0
        &&& self.neighbors@ == neighbor_positions(self.position, board_size)
    }
}

/// A board of letter tiles.
#[derive(Debug)]
pub struct Board {
    size: usize,
    cells: Vec<Vec<BoardCell>>,
    letter_set: Vec<String>,
}

impl View for Board {
    type V = Seq<Seq<Seq<char>>>;

    /// The tokens of the board, row by row.
    closed spec fn view(&self) -> Seq<Seq<Seq<char>>> {
        Seq::new(
            self.cells@.len(),
            |row: int|
                Seq::new(
                    self.cells@[row]@.len(),
                    |column: int| self.cells@[row]@[column].letter@,
                ),
        )
    }
}

impl Board {
    /// What holds of every board that `new` has built: the cells form a square,
    /// each knows its place, its letter and its neighbours, and the letter set
    /// lists the distinct tokens of the grid.
    pub closed spec fn wf(&self) -> bool {
        &&& self.cells@.len() == self.size
        &&& forall|row: int|
            0 <= row < self.size ==> (#[trigger] self.cells@[row])@.len() == self.size
        &&& forall|row: int, column: int|
            0 <= row < self.size && 0 <= column < self.size
                ==> (#[trigger] self.cells@[row]@[column]).placed_at(row, column, self.size as int)
        &&& token_values(self.letter_set@) == first_occurrences(self@.flatten())
    }

    /// The neighbours that the cell at `position` holds, in their order.
    pub closed spec fn neighbors_of(&self, position: Position) -> Seq<Position> {
        self.cells@[position.row as int]@[position.column as int].neighbors@
    }

    /// The tokens that the letter set holds, in their order.
    pub closed spec fn distinct_letters(&self) -> Seq<Seq<char>> {
        token_values(self.letter_set@)
    }

    /// Builds the board for a square matrix of letter tokens: a cell for each
    /// token, with the up to eight cells around it for its neighbours, and
    /// the distinct tokens for the letter set.
    pub fn new(letters: &[Vec<String>]) -> (board: Board)
        requires
            square_grid(grid_of(letters@)),
        ensures
            board.wf(),
            board@ == grid_of(letters@),
            forall|position: Position|
                on_board(position, letters@.len() as int) ==> #[trigger] board.neighbors_of(
                    position,
                ) == neighbor_positions(position, letters@.len() as int),
            board.distinct_letters() == first_occurrences(grid_of(letters@).flatten()),
    {
        let board_size = letters.len();
        let ghost grid = grid_of(letters@);
        let mut cells: Vec<Vec<BoardCell>> = Vec::new();
        let mut row: usize = 0;
        while row < board_size
            invariant
                board_size == letters.len(),
                grid == grid_of(letters@),
                square_grid(grid),
                row <= board_size,
                cells@.len() == row,
                forall|r: int| 0 <= r < row ==> (#[trigger] cells@[r])@.len() == board_size,
                forall|r: int, c: int|
                    0 <= r < row && 0 <= c < board_size ==> {
                        &&& (#[trigger] cells@[r]@[c]).placed_at(r, c, board_size as int)
                        &&& cells@[r]@[c].letter@ == grid[r][c]
                    },
            decreases board_size - row,
        {
            let line = &letters[row];
            assert(grid[row as int].len() == board_size);
            let mut cells_of_row: Vec<BoardCell> = Vec::new();
            let mut column: usize = 0;
            while column < board_size
                invariant
                    board_size == letters.len(),
                    grid == grid_of(letters@),
                    square_grid(grid),
                    row < board_size,
                    line == letters@[row as int],
                    line@.len() == board_size,
                    column <= board_size,
                    cells_of_row@.len() == column,
                    forall|c: int|
                        0 <= c < column ==> {
                            &&& (#[trigger] cells_of_row@[c]).placed_at(
                                row as int,
                                c,
                                board_size as int,
                            )
                            &&& cells_of_row@[c].letter@ == grid[row as int][c]
                        },
                decreases board_size - column,
            {
                let position = Position::new(row, column);
                let letter = line[column].clone();
                assert(letter@ == grid[row as int][column as int]);
                let mut cell = BoardCell::new(position, letter);
                cell.neighbors = cell.get_neighbors(board_size);
                cells_of_row.push(cell);
                column += 1;
            }
            cells.push(cells_of_row);
            row += 1;
        }
        let letter_set = distinct_tokens(letters);
        let board = Board { size: board_size, cells, letter_set };
        proof {
            assert(board@.len() == grid.len());
            assert forall|r: int| 0 <= r < grid.len() implies #[trigger] board@[r] == grid[r] by {
                assert(board.cells@[r]@.len() == board_size);
                assert(grid[r].len() == grid.len());
                assert forall|c: int| 0 <= c < grid.len() implies board@[r][c] == grid[r][c] by {
                    assert(board.cells@[r]@[c].placed_at(r, c, board_size as int));
                }
                assert(board@[r] =~= grid[r]);
            }
            assert(board@ =~= grid);
            assert forall|position: Position|
                on_board(position, letters@.len() as int) implies #[trigger] board.neighbors_of(
                position,
            ) == neighbor_positions(position, letters@.len() as int) by {
                assert(board.cells@[position.row as int]@[position.column as int].placed_at(
                    position.row as int,
                    position.column as int,
                    board_size as int,
                ));
            }
        }
        board
    }

    /// The number of rows, which is the number of columns.
    pub fn size(&self) -> (board_size: usize)
        requires
            self.wf(),
        ensures
            board_size == self@.len(),
    {
        self.size
    }

    /// The cell at a position of the board.
    pub fn cell(&self, position: Position) -> (cell: &BoardCell)
        requires
            self.wf(),
            on_board(position, self@.len() as int),
        ensures
            cell.position == position,
            cell.letter@ == self@[position.row as int][position.column as int],
            cell.letter@.len() > 0,
            cell.neighbors@ == self.neighbors_of(position),
            cell.neighbors@ == neighbor_positions(position, self@.len() as int),
    {
        let cell = &self.cells[position.row][position.column];
        assert(cell.placed_at(position.row as int, position.column as int, self.size as int));
        cell
    }

    /// The distinct tokens of the board, each where a reader meets it first.
    pub fn letter_set(&self) -> (letter_set: &Vec<String>)
        requires
            self.wf(),
        ensures
            token_values(letter_set@) == self.distinct_letters(),
            token_values(letter_set@) == first_occurrences(self@.flatten()),
    {
        &self.letter_set
    }

    /// The grid of a board is square, with a token in every cell.
    pub proof fn lemma_grid_is_square(&self)
        requires
            self.wf(),
        ensures
            square_grid(self@),
            self@.len() <= usize::MAX,
    {
        assert forall|row: int| 0 <= row < self@.len() implies {
            &&& (#[trigger] self@[row]).len() == self@.len()
            &&& forall|column: int|
                0 <= column < self@.len() ==> (#[trigger] self@[row][column]).len() > 0
        } by {
            assert(self.cells@[row]@.len() == self.size);
            assert forall|column: int| 0 <= column < self@.len() implies (
            #[trigger] self@[row][column]).len() > 0 by {
                assert(self.cells@[row]@[column].placed_at(row, column, self.size as int));
            }
        }
    }
}

} // verus!
