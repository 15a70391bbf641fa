//! The letter tokens of a board, and the words that can be spelled with them.

use itertools::Itertools;
use vstd::prelude::*;

verus! {

/// The tokens as sequences of characters.
pub open spec fn token_values(tokens: Seq<String>) -> Seq<Seq<char>> {
    tokens.map_values(|token: String| token@)
}

/// The rows of a letter matrix as sequences of tokens.
pub open spec fn grid_of(letters: Seq<Vec<String>>) -> Seq<Seq<Seq<char>>> {
    letters.map_values(|row: Vec<String>| token_values(row@))
}

/// The tokens without their repetitions: each one where it first occurs.
pub open spec fn first_occurrences(tokens: Seq<Seq<char>>) -> Seq<Seq<char>>
    decreases tokens.len(),
{
    if tokens.len() == 0 {
        Seq::empty()
    } else {
        let earlier = first_occurrences(tokens.drop_last());
        if earlier.contains(tokens.last()) {
            earlier
        } else {
            earlier.push(tokens.last())
        }
    }
}

/// Whether one of the tokens holds the character `letter`.
pub open spec fn letter_present(tokens: Seq<Seq<char>>, letter: char) -> bool {
    exists|i: int| 0 <= i < tokens.len() && #[trigger] tokens[i].contains(letter)
}

/// Whether every character of `word` occurs in one of the tokens.
pub open spec fn admissible(word: Seq<char>, tokens: Seq<Seq<char>>) -> bool {
    forall|k: int| 0 <= k < word.len() ==> letter_present(tokens, #[trigger] word[k])
}

/// `Itertools::unique` over the tokens, collected: each token is kept where it
/// first occurs and dropped where it occurs again, and the kept tokens stay in
/// their order.
#[verifier::external_body]
fn unique_tokens(tokens: Vec<String>) -> (distinct: Vec<String>)
    ensures
        token_values(distinct@) == first_occurrences(token_values(tokens@)),
{
    tokens.into_iter().unique().collect()
}

/// The distinct tokens of a letter matrix, in the order in which a reader
/// meets them first, row by row.
pub fn distinct_tokens(letters: &[Vec<String>]) -> (distinct: Vec<String>)
    ensures
        token_values(distinct@) == first_occurrences(grid_of(letters@).flatten()),
{
    let mut tokens: Vec<String> = Vec::new();
    let mut row: usize = 0;
    while row < letters.len()
        invariant
            row <= letters.len(),
            token_values(tokens@) == grid_of(letters@).take(row as int).flatten(),
        decreases letters.len() - row,
    {
        let line = &letters[row];
        let ghost before = tokens@;
        let mut column: usize = 0;
        while column < line.len()
            invariant
                column <= line.len(),
                tokens@ == before + line@.take(column as int),
            decreases line.len() - column,
        {
            tokens.push(line[column].clone());
            column += 1;
            assert(line@.take(column as int) == line@.take(column - 1).push(line@[column - 1]));
        }
        proof {
            let grid = grid_of(letters@);
            assert(line@.take(column as int) == line@);
            assert(token_values(tokens@) == token_values(before) + token_values(line@));
            assert(grid.take(row + 1) == grid.take(row as int).push(grid[row as int]));
            grid.take(row as int).lemma_flatten_push(grid[row as int]);
        }
        row += 1;
    }
    assert(grid_of(letters@).take(row as int) == grid_of(letters@));
    unique_tokens(tokens)
}

/// A token is among the distinct tokens exactly if it is among the tokens.
pub proof fn lemma_first_occurrences_contains(tokens: Seq<Seq<char>>, token: Seq<char>)
    ensures
        first_occurrences(tokens).contains(token) <==> tokens.contains(token),
    decreases tokens.len(),
{
    if tokens.len() > 0 {
        let earlier = tokens.drop_last();
        lemma_first_occurrences_contains(earlier, token);
        lemma_first_occurrences_contains(earlier, tokens.last());
        let kept = first_occurrences(earlier);
        let distinct = first_occurrences(tokens);
        if tokens.contains(token) {
            let i = choose|i: int| 0 <= i < tokens.len() && tokens[i] == token;
            if i < tokens.len() - 1 {
                assert(earlier[i] == token);
                let j = choose|j: int| 0 <= j < kept.len() && kept[j] == token;
                assert(distinct[j] == token);
            } else if !kept.contains(tokens.last()) {
                assert(distinct[kept.len() as int] == token);
            }
        }
        if distinct.contains(token) {
            let j = choose|j: int| 0 <= j < distinct.len() && distinct[j] == token;
            if j < kept.len() {
                assert(kept[j] == token);
                let i = choose|i: int| 0 <= i < earlier.len() && earlier[i] == token;
                assert(tokens[i] == token);
            } else {
                assert(tokens[tokens.len() - 1] == token);
            }
        }
    }
}

/// The distinct tokens hold the same letters as the tokens.
pub proof fn lemma_first_occurrences_letters(tokens: Seq<Seq<char>>, letter: char)
    ensures
        letter_present(first_occurrences(tokens), letter) <==> letter_present(tokens, letter),
{
    let distinct = first_occurrences(tokens);
    if letter_present(distinct, letter) {
        let i = choose|i: int| 0 <= i < distinct.len() && #[trigger] distinct[i].contains(letter);
        lemma_first_occurrences_contains(tokens, distinct[i]);
        let j = choose|j: int| 0 <= j < tokens.len() && tokens[j] == distinct[i];
        assert(tokens[j].contains(letter));
    }
    if letter_present(tokens, letter) {
        let i = choose|i: int| 0 <= i < tokens.len() && #[trigger] tokens[i].contains(letter);
        lemma_first_occurrences_contains(tokens, tokens[i]);
        let j = choose|j: int| 0 <= j < distinct.len() && distinct[j] == tokens[i];
        assert(distinct[j].contains(letter));
    }
}

/// Every letter of the tokens, one after the other, is a letter of a token.
pub proof fn lemma_flattened_letter_present(tokens: Seq<Seq<char>>, k: int)
    requires
        0 <= k < tokens.flatten().len(),
    ensures
        letter_present(tokens, tokens.flatten()[k]),
    decreases tokens.len(),
{
    if tokens.len() > 0 {
        let earlier = tokens.drop_last();
        assert(earlier.push(tokens.last()) =~= tokens);
        earlier.lemma_flatten_push(tokens.last());
        if k < earlier.flatten().len() {
            lemma_flattened_letter_present(earlier, k);
            let i = choose|i: int|
                0 <= i < earlier.len() && #[trigger] earlier[i].contains(tokens.flatten()[k]);
            assert(tokens[i].contains(tokens.flatten()[k]));
        } else {
            let last = tokens.last();
            assert(last[k - earlier.flatten().len()] == tokens.flatten()[k]);
            assert(tokens[tokens.len() - 1].contains(tokens.flatten()[k]));
        }
    }
}

/// Every token of a grid is among its tokens, read row by row.
pub proof fn lemma_grid_token_listed(grid: Seq<Seq<Seq<char>>>, row: int, column: int)
    requires
        0 <= row < grid.len(),
        0 <= column < grid[row].len(),
    ensures
        grid.flatten().contains(grid[row][column]),
    decreases grid.len(),
{
    let earlier = grid.drop_last();
    assert(earlier.push(grid.last()) =~= grid);
    earlier.lemma_flatten_push(grid.last());
    let listed = grid.flatten();
    if row < grid.len() - 1 {
        lemma_grid_token_listed(earlier, row, column);
        let i = choose|i: int|
            0 <= i < earlier.flatten().len() && earlier.flatten()[i] == grid[row][column];
        assert(listed[i] == grid[row][column]);
    } else {
        assert(listed[earlier.flatten().len() + column] == grid[row][column]);
    }
}

} // verus!
