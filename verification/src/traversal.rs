//! The search: a walk from every cell of the board, depth first, that follows
//! the vocabulary from prefix to longer prefix and turns back where no word
//! goes on.

use crate::board::Board;
use crate::order::{
    lemma_lex_asymmetric, lemma_lex_total, lemma_lex_transitive, lemma_sorted_no_duplicates,
    lex_less, rank_against, rank_of, strictly_sorted, Rank,
};
use crate::path::{lookup_key, TraversalPath};
use crate::position::{
    adjacent, lemma_neighbors_are_adjacent, neighbor_positions, on_board, Position,
};
use crate::trail::{
    found_before, found_from, found_on, found_through, is_trail, lemma_found_from_a_cell,
    lemma_leaf, lemma_letters_push, lemma_pruned, lemma_step, lemma_visited_blocks, letters_along,
    narrowed, spells, stands_for, tokens_along,
};
use crate::visited::VisitedCells;
use crate::vocabulary::{lemma_usable_words_distinct, usable_words, Vocabulary, WordIndex};
use crate::word::{word_values, Word};
use vstd::prelude::*;

verus! {

/// Puts the word of `traversal_path` into the sorted list, unless it is there.
fn insert_word(real_words: &mut Vec<Word>, traversal_path: &TraversalPath)
    requires
        strictly_sorted(word_values(old(real_words)@)),
    ensures
        strictly_sorted(word_values(final(real_words)@)),
        forall|word: Seq<char>|
            word_values(final(real_words)@).contains(word) <==> (word_values(
                old(real_words)@,
            ).contains(word) || word == traversal_path@),
{
    let ghost before = word_values(real_words@);
    let ghost target = traversal_path@;
    let mut low: usize = 0;
    let mut high: usize = real_words.len();
    while low < high
        invariant
            low <= high <= real_words.len(),
            real_words@ == old(real_words)@,
            before == word_values(real_words@),
            target == traversal_path@,
            strictly_sorted(before),
            forall|i: int| 0 <= i < low ==> rank_of(target, #[trigger] before[i]) == Rank::After,
            forall|i: int|
                high <= i < before.len() ==> rank_of(target, #[trigger] before[i]) == Rank::Before,
        decreases high - low,
    {
        let middle = low + (high - low) / 2;
        let rank = rank_against(&traversal_path.path, real_words[middle].value.as_str());
        assert(rank == rank_of(target, before[middle as int]));
        match rank {
            Rank::Same => {
                proof {
                    assert(before[middle as int] == target);
                }
                return ;
            },
            Rank::After => {
                proof {
                    lemma_rank_after(target, before[middle as int]);
                    assert forall|i: int| 0 <= i < middle + 1 implies rank_of(
                        target,
                        #[trigger] before[i],
                    ) == Rank::After by {
                        if i < middle {
                            lemma_lex_transitive(before[i], before[middle as int], target);
                            lemma_lex_asymmetric(before[i], target);
                        }
                    }
                }
                low = middle + 1;
            },
            Rank::Before => {
                proof {
                    assert forall|i: int| middle <= i < before.len() implies rank_of(
                        target,
                        #[trigger] before[i],
                    ) == Rank::Before by {
                        lemma_lex_asymmetric(target, before[middle as int]);
                        if middle < i {
                            lemma_lex_transitive(target, before[middle as int], before[i]);
                            lemma_lex_asymmetric(target, before[i]);
                        }
                    }
                }
                high = middle;
            },
        }
    }
    let word = traversal_path.to_word();
    real_words.insert(low, word);
    proof {
        let after = word_values(real_words@);
        assert(after =~= before.insert(low as int, target));
        assert forall|i: int, j: int| 0 <= i < j < after.len() implies lex_less(
            after[i],
            after[j],
        ) by {
            if j < low {
                assert(lex_less(before[i], before[j]));
            } else if j == low {
                lemma_rank_after(target, before[i]);
            } else if i < low {
                assert(lex_less(before[i], before[j - 1]));
            } else if i == low {
                assert(rank_of(target, before[j - 1]) == Rank::Before);
            } else {
                assert(lex_less(before[i - 1], before[j - 1]));
            }
        }
        assert forall|other: Seq<char>| after.contains(other) <==> (before.contains(other) || other
            == target) by {
            if before.contains(other) {
                let i = choose|i: int| 0 <= i < before.len() && before[i] == other;
                if i < low {
                    assert(after[i] == other);
                } else {
                    assert(after[i + 1] == other);
                }
            }
            if other == target {
                assert(after[low as int] == other);
            }
            if after.contains(other) {
                let i = choose|i: int| 0 <= i < after.len() && after[i] == other;
                if i < low {
                    assert(before[i] == other);
                } else if i > low {
                    assert(before[i - 1] == other);
                }
            }
        }
    }
}

/// A word that ranks after another comes after it.
proof fn lemma_rank_after(a: Seq<char>, b: Seq<char>)
    requires
        rank_of(a, b) == Rank::After,
    ensures
        lex_less(b, a),
{
    lemma_lex_total(a, b);
}

/// Walks on from the cell at `position`: where the vocabulary has a word that
/// begins with what the walk stands for, records the word if the walk spells
/// one, tries every neighbour in turn, and steps back.
///
/// `trail` holds the cells of the walk so far and `words` the vocabulary that
/// the search began with.
fn depth_first_traverse(
    board: &Board,
    position: Position,
    visited: &mut VisitedCells,
    traversal_path: &mut TraversalPath,
    real_words: &mut Vec<Word>,
    vocabulary: &Vocabulary,
    Ghost(trail): Ghost<Seq<Position>>,
    Ghost(words): Ghost<Set<Seq<char>>>,
)
    requires
        board.wf(),
        on_board(position, board@.len() as int),
        old(visited).wf(),
        old(visited).board_size() == board@.len(),
        old(visited)@ == trail.to_set(),
        is_trail(trail, board@.len() as int),
        trail.len() > 0 ==> adjacent(trail.last(), position),
        old(traversal_path)@ == letters_along(board@, trail),
        narrowed(vocabulary@, words, stands_for(board@, trail)),
        strictly_sorted(word_values(old(real_words)@)),
    ensures
        final(visited).wf(),
        final(visited).board_size() == old(visited).board_size(),
        final(visited)@ == old(visited)@,
        final(traversal_path)@ == old(traversal_path)@,
        strictly_sorted(word_values(final(real_words)@)),
        forall|word: Seq<char>|
            #![trigger word_values(final(real_words)@).contains(word)]
            word_values(final(real_words)@).contains(word) <==> (word_values(
                old(real_words)@,
            ).contains(word) || found_from(board@, words, trail.push(position), word)),
    decreases old(visited).unvisited(),
{
    let ghost grid = board@;
    let ghost start = trail.push(position);
    let ghost found_earlier = word_values(real_words@);
    proof {
        board.lemma_grid_is_square();
    }
    if visited.contains(&position) {
        proof {
            assert forall|word: Seq<char>| !found_from(grid, words, start, word) by {
                lemma_visited_blocks(grid, words, trail, position, word);
            }
        }
        return ;
    }
    visited.insert(position);
    let board_cell = board.cell(position);
    let depth = traversal_path.path.len();
    traversal_path.push(board_cell);
    proof {
        lemma_letters_push(grid, trail, position);
        assert(start.drop_last() =~= trail);
        assert(visited@ =~= start.to_set()) by {
            assert forall|other: Position| start.contains(other) <==> (trail.contains(other)
                || other == position) by {
                if trail.contains(other) {
                    let i = choose|i: int| 0 <= i < trail.len() && trail[i] == other;
                    assert(start[i] == other);
                }
                if other == position {
                    assert(start[trail.len() as int] == other);
                }
            }
        }
        assert(is_trail(start, grid.len() as int));
    }
    let ghost path = traversal_path@;
    let ghost neighbors = neighbor_positions(position, grid.len() as int);
    if let Some(subvocabulary) = vocabulary.subvocabulary_using_traversal_ending(traversal_path) {
        let ghost reached = stands_for(grid, start);
        proof {
            let key = lookup_key(path);
            assert(reached == stands_for(grid, trail) + key);
            assert forall|rest: Seq<char>| #[trigger]
                subvocabulary@.contains_key(rest) <==> words.contains(reached + rest) by {
                assert(reached + rest =~= stands_for(grid, trail) + (key + rest));
                assert(subvocabulary@.contains_key(rest) <==> vocabulary@.contains_key(key + rest));
            }
            assert(narrowed(subvocabulary@, words, reached));
            assert(reached + Seq::<char>::empty() =~= reached);
        }
        if traversal_path.is_long_enough_for_valid_word()
            && subvocabulary.current_node_is_word_end() {
            insert_word(real_words, traversal_path);
        }
        let ghost found_here = word_values(real_words@);
        assert forall|word: Seq<char>|
            found_here.contains(word) <==> (found_earlier.contains(word) || (spells(
                grid,
                start,
                word,
            ) && words.contains(reached))) by {
            if spells(grid, start, word) {
                assert(word == path);
            }
        }
        if subvocabulary.has_longer_words() {
            let mut next: usize = 0;
            while next < board_cell.neighbors.len()
                invariant
                    board.wf(),
                    grid == board@,
                    grid.len() <= usize::MAX,
                    on_board(position, grid.len() as int),
                    start == trail.push(position),
                    board_cell.neighbors@ == neighbors,
                    neighbors == neighbor_positions(position, grid.len() as int),
                    next <= neighbors.len(),
                    visited.wf(),
                    visited.board_size() == grid.len(),
                    visited@ == start.to_set(),
                    visited.unvisited() < old(visited).unvisited(),
                    is_trail(start, grid.len() as int),
                    traversal_path@ == path,
                    path == letters_along(grid, start),
                    narrowed(subvocabulary@, words, stands_for(grid, start)),
                    strictly_sorted(word_values(real_words@)),
                    forall|word: Seq<char>|
                        #![trigger word_values(real_words@).contains(word)]
                        word_values(real_words@).contains(word) <==> (found_here.contains(word)
                            || found_through(grid, words, start, neighbors, next as int, word)),
                decreases neighbors.len() - next,
            {
                let neighbor = board_cell.neighbors[next];
                let ghost found_so_far = word_values(real_words@);
                proof {
                    lemma_neighbors_are_adjacent(position, grid.len() as int);
                    assert(neighbors.contains(neighbors[next as int]));
                }
                depth_first_traverse(
                    board,
                    neighbor,
                    visited,
                    traversal_path,
                    real_words,
                    &subvocabulary,
                    Ghost(start),
                    Ghost(words),
                );
                proof {
                    assert forall|word: Seq<char>|
                        #![trigger word_values(real_words@).contains(word)]
                        word_values(real_words@).contains(word) <==> (found_here.contains(word)
                            || found_through(
                            grid,
                            words,
                            start,
                            neighbors,
                            next as int + 1,
                            word,
                        )) by {
                        assert(word_values(real_words@).contains(word) <==> (found_so_far.contains(
                            word,
                        ) || found_from(grid, words, start.push(neighbors[next as int]), word)));
                    }
                }
                next += 1;
            }
            proof {
                assert forall|word: Seq<char>|
                    #![trigger word_values(real_words@).contains(word)]
                    word_values(real_words@).contains(word) <==> (found_earlier.contains(word)
                        || found_from(grid, words, start, word)) by {
                    lemma_step(grid, words, start, word);
                    assert(neighbors.len() <= 8);
                }
            }
        } else {
            proof {
                assert forall|word: Seq<char>|
                    #![trigger word_values(real_words@).contains(word)]
                    word_values(real_words@).contains(word) <==> (found_earlier.contains(word)
                        || found_from(grid, words, start, word)) by {
                    lemma_step(grid, words, start, word);
                    assert forall|k: int| 0 <= k < neighbors.len() implies !found_from(
                        grid,
                        words,
                        start.push(#[trigger] neighbors[k]),
                        word,
                    ) by {
                        lemma_leaf(grid, words, start, subvocabulary@, neighbors[k], word);
                    }
                }
            }
        }
    } else {
        proof {
            assert forall|word: Seq<char>| !found_from(grid, words, start, word) by {
                lemma_pruned(grid, words, start, vocabulary@, word);
            }
        }
    }
    while traversal_path.path.len() > depth
        invariant
            depth == old(traversal_path)@.len(),
            traversal_path@.len() >= depth,
            traversal_path@.take(depth as int) == old(traversal_path)@,
        decreases traversal_path@.len(),
    {
        traversal_path.step_out();
    }
    visited.remove(&position);
    proof {
        assert(traversal_path@ =~= traversal_path@.take(depth as int));
        assert(visited@ =~= old(visited)@);
    }
}

/// `found` is what a search of `grid` for the words of `vocabulary` gives:
/// the words found on the grid, once each, in the order of the dictionary. The
/// vocabulary of the search is what is left of `vocabulary` when the words with
/// a character that no token of the grid holds are taken out.
pub open spec fn is_result(
    found: Seq<Seq<char>>,
    grid: Seq<Seq<Seq<char>>>,
    vocabulary: Seq<Seq<char>>,
) -> bool {
    &&& strictly_sorted(found)
    &&& forall|word: Seq<char>| #[trigger]
        found.contains(word) <==> found_on(grid, usable_words(vocabulary, grid.flatten()), word)
}

impl Board {
    /// Finds the words of the vocabulary on the board: every word of three
    /// letters or more that a walk over neighbouring cells spells, once, in
    /// the order of the dictionary.
    pub fn enumerate_words(self, vocabulary: &[Word]) -> (real_words: Vec<Word>)
        requires
            self.wf(),
        ensures
            is_result(word_values(real_words@), self@, word_values(vocabulary@)),
            word_values(real_words@).no_duplicates(),
            forall|i: int|
                0 <= i < real_words@.len() ==> (#[trigger] real_words@[i])@.len() >= 3,
    {
        let ghost grid = self@;
        let board_size = self.size();
        let index = WordIndex::build(vocabulary, self.letter_set());
        let root = index.vocabulary();
        let ghost words = usable_words(word_values(vocabulary@), grid.flatten());
        let mut visited = VisitedCells::new(board_size);
        let mut traversal_path = TraversalPath::new();
        let mut real_words: Vec<Word> = Vec::new();
        proof {
            self.lemma_grid_is_square();
            lemma_usable_words_distinct(word_values(vocabulary@), grid.flatten());
            assert forall|rest: Seq<char>| #[trigger]
                root@.contains_key(rest) <==> words.contains(Seq::<char>::empty() + rest) by {
                assert(Seq::<char>::empty() + rest =~= rest);
            }
            assert(visited@ =~= Seq::<Position>::empty().to_set());
            assert(traversal_path@ =~= letters_along(grid, Seq::<Position>::empty())) by {
                assert(tokens_along(grid, Seq::<Position>::empty())
                    =~= Seq::<Seq<char>>::empty());
            }
        }
        let mut row: usize = 0;
        while row < board_size
            invariant
                self.wf(),
                grid == self@,
                board_size == grid.len(),
                row <= board_size,
                visited.wf(),
                visited.board_size() == board_size,
                visited@ == Seq::<Position>::empty().to_set(),
                traversal_path@ == letters_along(grid, Seq::<Position>::empty()),
                narrowed(root@, words, stands_for(grid, Seq::<Position>::empty())),
                strictly_sorted(word_values(real_words@)),
                forall|word: Seq<char>|
                    #![trigger word_values(real_words@).contains(word)]
                    word_values(real_words@).contains(word) <==> found_before(
                        grid,
                        words,
                        row as int,
                        0,
                        word,
                    ),
            decreases board_size - row,
        {
            let mut column: usize = 0;
            while column < board_size
                invariant
                    self.wf(),
                    grid == self@,
                    board_size == grid.len(),
                    row < board_size,
                    column <= board_size,
                    visited.wf(),
                    visited.board_size() == board_size,
                    visited@ == Seq::<Position>::empty().to_set(),
                    traversal_path@ == letters_along(grid, Seq::<Position>::empty()),
                    narrowed(root@, words, stands_for(grid, Seq::<Position>::empty())),
                    strictly_sorted(word_values(real_words@)),
                    forall|word: Seq<char>|
                        #![trigger word_values(real_words@).contains(word)]
                        word_values(real_words@).contains(word) <==> found_before(
                            grid,
                            words,
                            row as int,
                            column as int,
                            word,
                        ),
                decreases board_size - column,
            {
                let ghost found_so_far = word_values(real_words@);
                let first = Position::new(row, column);
                depth_first_traverse(
                    &self,
                    first,
                    &mut visited,
                    &mut traversal_path,
                    &mut real_words,
                    &root,
                    Ghost(Seq::empty()),
                    Ghost(words),
                );
                proof {
                    assert forall|word: Seq<char>|
                        #![trigger word_values(real_words@).contains(word)]
                        word_values(real_words@).contains(word) <==> found_before(
                            grid,
                            words,
                            row as int,
                            column as int + 1,
                            word,
                        ) by {
                        assert(word_values(real_words@).contains(word) <==> (found_so_far.contains(
                            word,
                        ) || found_from(grid, words, Seq::<Position>::empty().push(first), word)));
                    }
                }
                column += 1;
            }
            proof {
                assert forall|word: Seq<char>|
                    found_before(grid, words, row as int, column as int, word) <==> found_before(
                        grid,
                        words,
                        row as int + 1,
                        0,
                        word,
                    ) by {
                    if found_before(grid, words, row as int, column as int, word) {
                        let first = choose|first: Position|
                            on_board(first, grid.len() as int) && (first.row < row || (first.row
                                == row && first.column < column)) && #[trigger] found_from(
                                grid,
                                words,
                                Seq::<Position>::empty().push(first),
                                word,
                            );
                        assert(first.row < row + 1);
                    }
                    if found_before(grid, words, row as int + 1, 0, word) {
                        let first = choose|first: Position|
                            on_board(first, grid.len() as int) && (first.row < row + 1 || (
                            first.row == row + 1 && first.column < 0)) && #[trigger] found_from(
                                grid,
                                words,
                                Seq::<Position>::empty().push(first),
                                word,
                            );
                        assert(first.row < row || (first.row == row && first.column < column));
                    }
                }
            }
            row += 1;
        }
        proof {
            let found = word_values(real_words@);
            assert forall|word: Seq<char>| #[trigger]
                found.contains(word) <==> found_on(grid, words, word) by {
                lemma_found_from_a_cell(grid, words, word);
            }
            lemma_sorted_no_duplicates(found);
            assert forall|i: int| 0 <= i < real_words@.len() implies (
            #[trigger] real_words@[i])@.len() >= 3 by {
                let word = real_words@[i]@;
                assert(found[i] == word);
                assert(found.contains(word));
                let walk = choose|walk: Seq<Position>| #[trigger]
                    spells(grid, walk, word) && words.contains(stands_for(grid, walk));
            }
        }
        real_words
    }
}

} // verus!
