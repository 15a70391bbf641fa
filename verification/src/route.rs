//! A board to solve and the answer to it: the words found and their score.

use crate::board::{square_grid, Board};
use crate::letters::{grid_of, token_values};
use crate::traversal::is_result;
use crate::word::{points, total_points, word_values, Word};
use vstd::prelude::*;

verus! {

/// The board that a caller wants solved, row by row.
#[derive(Debug)]
pub struct BoardRequest {
    pub board: Vec<Vec<String>>,
}

/// The words found on a board, in the order of the dictionary, and the sum of
/// their points.
#[derive(Debug)]
pub struct SolutionResponse {
    pub words: Vec<String>,
    pub score: i32,
}

impl View for BoardRequest {
    type V = Seq<Seq<Seq<char>>>;

    /// The tokens of the board, row by row.
    open spec fn view(&self) -> Seq<Seq<Seq<char>>> {
        grid_of(self.board@)
    }
}

impl BoardRequest {
    /// Whether the board is square and none of its tokens is empty: what a
    /// board must be to be solved.
    pub fn is_well_formed(&self) -> (well_formed: bool)
        ensures
            well_formed == square_grid(self@),
    {
        let board_size = self.board.len();
        let mut row: usize = 0;
        while row < board_size
            invariant
                board_size == self.board@.len(),
                row <= board_size,
                forall|r: int|
                    0 <= r < row ==> {
                        &&& (#[trigger] self@[r]).len() == board_size
                        &&& forall|c: int|
                            0 <= c < board_size ==> (#[trigger] self@[r][c]).len() > 0
                    },
            decreases board_size - row,
        {
            let line = &self.board[row];
            if line.len() != board_size {
                assert(self@[row as int].len() != self@.len());
                return false;
            }
            let mut column: usize = 0;
            while column < board_size
                invariant
                    board_size == self.board@.len(),
                    row < board_size,
                    line == self.board@[row as int],
                    line@.len() == board_size,
                    column <= board_size,
                    forall|c: int| 0 <= c < column ==> (#[trigger] self@[row as int][c]).len() > 0,
                decreases board_size - column,
            {
                if line[column].as_str().is_empty() {
                    assert(self@[row as int][column as int].len() == 0);
                    return false;
                }
                column += 1;
            }
            row += 1;
        }
        true
    }
}

impl SolutionResponse {
    /// The answer that holds no word yet.
    pub fn new() -> (solution: SolutionResponse)
        ensures
            solution.words@ == Seq::<String>::empty(),
            solution.score == 0,
    {
        SolutionResponse { words: Vec::new(), score: 0 }
    }
}

/// The points of the first words of a list are no more than those of all.
proof fn lemma_total_points_grow(words: Seq<Seq<char>>, count: int)
    requires
        0 <= count <= words.len(),
    ensures
        0 <= total_points(words.take(count)) <= total_points(words),
    decreases words.len() - count,
{
    if count == words.len() {
        assert(words.take(count) =~= words);
        lemma_total_points_positive(words);
    } else {
        lemma_total_points_grow(words, count + 1);
        assert(words.take(count + 1).drop_last() =~= words.take(count));
        lemma_total_points_positive(words.take(count));
    }
}

/// No list of words is worth less than nothing.
proof fn lemma_total_points_positive(words: Seq<Seq<char>>)
    ensures
        0 <= total_points(words),
    decreases words.len(),
{
    if words.len() > 0 {
        lemma_total_points_positive(words.drop_last());
    }
}

/// `solution` answers a search that found `found`: it holds the words and the
/// sum of their points, or it is nothing, where the points are more than the
/// score can hold.
pub open spec fn answers(solution: Option<SolutionResponse>, found: Seq<Seq<char>>) -> bool {
    match solution {
        Some(answer) => token_values(answer.words@) == found && answer.score == total_points(
            found,
        ),
        None => total_points(found) > i32::MAX,
    }
}

/// Solves a board: finds the words of the vocabulary on it and adds up their
/// points.
pub fn solve(board_request: &BoardRequest, vocabulary: &[Word]) -> (solution: Option<
    SolutionResponse,
>)
    requires
        square_grid(board_request@),
    ensures
        exists|found: Seq<Seq<char>>| #[trigger]
            is_result(found, board_request@, word_values(vocabulary@)) && answers(
                solution,
                found,
            ),
{
    let board = Board::new(board_request.board.as_slice());
    let real_words = board.enumerate_words(vocabulary);
    let ghost found = word_values(real_words@);
    let mut solution = SolutionResponse::new();
    let mut count: usize = 0;
    while count < real_words.len()
        invariant
            count <= real_words.len(),
            found == word_values(real_words@),
            is_result(found, board_request@, word_values(vocabulary@)),
            token_values(solution.words@) == found.take(count as int),
            solution.score == total_points(found.take(count as int)),
        decreases real_words.len() - count,
    {
        let word = &real_words[count];
        proof {
            assert(found.take(count + 1).drop_last() =~= found.take(count as int));
            assert(total_points(found.take(count + 1)) == solution.score + points(word@));
            lemma_total_points_grow(found, count + 1);
        }
        match solution.score.checked_add(word.score()) {
            Some(sum) => {
                solution.score = sum;
            },
            None => {
                assert(answers(None, found));
                return None;
            },
        }
        solution.words.push(word.value.clone());
        count += 1;
        assert(token_values(solution.words@) =~= found.take(count as int));
    }
    proof {
        assert(found.take(count as int) =~= found);
        assert(answers(Some(solution), found));
    }
    Some(solution)
}

} // verus!
