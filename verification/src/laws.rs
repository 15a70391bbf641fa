//! What holds of every search, whatever the board and the vocabulary.

use crate::board::{square_grid, token_at};
use crate::letters::{
    admissible, lemma_flattened_letter_present, lemma_grid_token_listed, letter_present,
};
use crate::path::lookup_key;
use crate::order::{lemma_sorted_no_duplicates, lemma_sorted_unique};
use crate::position::{on_board, Position};
use crate::route::{answers, SolutionResponse};
use crate::trail::{
    found_on, is_trail, lemma_letters_push, letters_along, spells, stands_for, tokens_along,
};
use crate::traversal::is_result;
use crate::vocabulary::usable_words;
use crate::word::total_points;
use vstd::prelude::*;

verus! {

/// Every word of a result has three letters or more, and a walk over
/// neighbouring cells of the grid that steps on no cell twice collects its
/// letters; the word that this walk stands for, with `qu` as the key of the
/// step that follows a `q`, is a word of the vocabulary that holds no
/// character but those of the grid's tokens.
pub proof fn lemma_found_words_are_valid(
    found: Seq<Seq<char>>,
    grid: Seq<Seq<Seq<char>>>,
    vocabulary: Seq<Seq<char>>,
    i: int,
)
    requires
        is_result(found, grid, vocabulary),
        0 <= i < found.len(),
    ensures
        found[i].len() >= 3,
        exists|trail: Seq<Position>|
            {
                &&& is_trail(trail, grid.len() as int)
                &&& #[trigger] letters_along(grid, trail) == found[i]
                &&& vocabulary.contains(stands_for(grid, trail))
                &&& admissible(stands_for(grid, trail), grid.flatten())
            },
{
    let word = found[i];
    assert(found.contains(word));
    let walk = choose|walk: Seq<Position>| #[trigger]
        spells(grid, walk, word) && usable_words(vocabulary, grid.flatten()).contains(
            stands_for(grid, walk),
        );
    assert(letters_along(grid, walk) == word);
}

/// A search gives the same result each time: two lists that are both what the
/// search of a grid for a vocabulary gives hold the same words in the same
/// order.
pub proof fn lemma_result_is_unique(
    first: Seq<Seq<char>>,
    second: Seq<Seq<char>>,
    grid: Seq<Seq<Seq<char>>>,
    vocabulary: Seq<Seq<char>>,
)
    requires
        is_result(first, grid, vocabulary),
        is_result(second, grid, vocabulary),
    ensures
        first == second,
{
    lemma_sorted_unique(first, second);
}

/// A result holds no word twice, however many walks spell it.
pub proof fn lemma_result_has_no_duplicates(
    found: Seq<Seq<char>>,
    grid: Seq<Seq<Seq<char>>>,
    vocabulary: Seq<Seq<char>>,
)
    requires
        is_result(found, grid, vocabulary),
    ensures
        found.no_duplicates(),
{
    lemma_sorted_no_duplicates(found);
}

/// With no word in the vocabulary, or no cell on the board, the result is the
/// empty list and nothing else, and it is worth no points.
pub proof fn lemma_empty_input_finds_nothing(
    found: Seq<Seq<char>>,
    grid: Seq<Seq<Seq<char>>>,
    vocabulary: Seq<Seq<char>>,
)
    requires
        vocabulary.len() == 0 || grid.len() == 0,
    ensures
        is_result(found, grid, vocabulary) <==> found.len() == 0,
        is_result(found, grid, vocabulary) ==> total_points(found) == 0,
{
    let words = usable_words(vocabulary, grid.flatten());
    assert forall|word: Seq<char>| !found_on(grid, words, word) by {
        if found_on(grid, words, word) {
            let walk = choose|walk: Seq<Position>| #[trigger]
                spells(grid, walk, word) && words.contains(stands_for(grid, walk));
            if walk.len() > 0 {
                assert(on_board(walk[0], grid.len() as int));
            } else {
                assert(tokens_along(grid, walk) =~= Seq::<Seq<char>>::empty());
            }
        }
    }
    if is_result(found, grid, vocabulary) && found.len() > 0 {
        assert(found.contains(found[0]));
    }
}

/// With no word in the vocabulary, or no cell on the board, the answer holds
/// no word and its score is zero.
pub proof fn lemma_empty_input_scores_nothing(
    solution: Option<SolutionResponse>,
    found: Seq<Seq<char>>,
    grid: Seq<Seq<Seq<char>>>,
    vocabulary: Seq<Seq<char>>,
)
    requires
        vocabulary.len() == 0 || grid.len() == 0,
        is_result(found, grid, vocabulary),
        answers(solution, found),
    ensures
        solution is Some,
        solution.unwrap().words@.len() == 0,
        solution.unwrap().score == 0,
{
    lemma_empty_input_finds_nothing(found, grid, vocabulary);
}

/// A tile as the game has them: one letter other than `q`, or the letters
/// `qu`.
pub open spec fn plain_token(token: Seq<char>) -> bool {
    (token.len() == 1 && token[0] != 'q') || token == seq!['q', 'u']
}

/// A grid of plain tiles.
pub open spec fn plain_grid(grid: Seq<Seq<Seq<char>>>) -> bool {
    forall|row: int, column: int|
        0 <= row < grid.len() && 0 <= column < grid[row].len() ==> plain_token(
            #[trigger] grid[row][column],
        )
}

/// Every letter that a walk collects is a letter of a tile of the grid.
pub proof fn lemma_collected_letters_are_on_the_grid(
    grid: Seq<Seq<Seq<char>>>,
    trail: Seq<Position>,
)
    requires
        square_grid(grid),
        forall|i: int| 0 <= i < trail.len() ==> on_board(#[trigger] trail[i], grid.len() as int),
    ensures
        admissible(letters_along(grid, trail), grid.flatten()),
{
    let letters = letters_along(grid, trail);
    let tokens = tokens_along(grid, trail);
    assert forall|k: int| 0 <= k < letters.len() implies letter_present(
        grid.flatten(),
        #[trigger] letters[k],
    ) by {
        lemma_flattened_letter_present(tokens, k);
        let i = choose|i: int| 0 <= i < tokens.len() && #[trigger] tokens[i].contains(letters[k]);
        let position = trail[i];
        assert(on_board(position, grid.len() as int));
        assert(grid[position.row as int].len() == grid.len());
        lemma_grid_token_listed(grid, position.row as int, position.column as int);
        let j = choose|j: int|
            0 <= j < grid.flatten().len() && grid.flatten()[j] == token_at(grid, position);
        assert(grid.flatten()[j].contains(letters[k]));
    }
}

/// On a grid of plain tiles a walk stands for the letters that it collects.
pub proof fn lemma_plain_walk_stands_for_its_letters(
    grid: Seq<Seq<Seq<char>>>,
    trail: Seq<Position>,
)
    requires
        square_grid(grid),
        plain_grid(grid),
        forall|i: int| 0 <= i < trail.len() ==> on_board(#[trigger] trail[i], grid.len() as int),
    ensures
        stands_for(grid, trail) == letters_along(grid, trail),
        trail.len() > 0 ==> letters_along(grid, trail).len() > 0 && letters_along(
            grid,
            trail,
        ).last() != 'q',
    decreases trail.len(),
{
    if trail.len() == 0 {
        assert(tokens_along(grid, trail) =~= Seq::<Seq<char>>::empty());
    } else {
        let before = trail.drop_last();
        let position = trail.last();
        let token = token_at(grid, position);
        assert(before.push(position) =~= trail);
        lemma_plain_walk_stands_for_its_letters(grid, before);
        lemma_letters_push(grid, before, position);
        assert(on_board(position, grid.len() as int));
        assert(grid[position.row as int].len() == grid.len());
        assert(plain_token(grid[position.row as int][position.column as int]));
        let collected = letters_along(grid, before);
        let letters = letters_along(grid, trail);
        assert(letters == collected + token);
        if before.len() == 0 {
            assert(tokens_along(grid, before) =~= Seq::<Seq<char>>::empty());
        }
        if token.len() == 1 {
            assert(lookup_key(letters) =~= token);
        } else {
            assert(letters[letters.len() - 2] == token[0]);
            assert(lookup_key(letters) =~= token);
        }
    }
}

/// On a grid of plain tiles the search finds the words of the vocabulary, of
/// three letters or more, that a walk over the grid collects, and no others.
pub proof fn lemma_plain_grid_finds_vocabulary_words(
    found: Seq<Seq<char>>,
    grid: Seq<Seq<Seq<char>>>,
    vocabulary: Seq<Seq<char>>,
    word: Seq<char>,
)
    requires
        is_result(found, grid, vocabulary),
        square_grid(grid),
        plain_grid(grid),
    ensures
        found.contains(word) <==> (vocabulary.contains(word) && exists|trail: Seq<Position>|
            #[trigger] spells(grid, trail, word)),
{
    let words = usable_words(vocabulary, grid.flatten());
    if found.contains(word) {
        let walk = choose|walk: Seq<Position>| #[trigger]
            spells(grid, walk, word) && words.contains(stands_for(grid, walk));
        lemma_plain_walk_stands_for_its_letters(grid, walk);
    }
    if vocabulary.contains(word) && exists|trail: Seq<Position>| #[trigger]
        spells(grid, trail, word) {
        let walk = choose|walk: Seq<Position>| #[trigger] spells(grid, walk, word);
        lemma_plain_walk_stands_for_its_letters(grid, walk);
        lemma_collected_letters_are_on_the_grid(grid, walk);
        assert(words.contains(stands_for(grid, walk)));
        assert(found_on(grid, words, word));
    }
}

} // verus!
