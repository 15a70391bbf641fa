//! Walks over the board, the letters they collect and the word of the
//! vocabulary that each stands for.

use crate::board::{square_grid, token_at};
use crate::path::lookup_key;
use crate::position::{
    adjacent, lemma_neighbors_are_adjacent, neighbor_positions, on_board, Position,
};
use crate::vocabulary::{has_longer_word, has_word_under, Entries};
use vstd::prelude::*;

verus! {

/// A walk over a board of the given size: every cell lies on the board, each
/// is a neighbour of the one before it, and none is stepped on twice.
pub open spec fn is_trail(trail: Seq<Position>, board_size: int) -> bool {
    &&& forall|i: int| 0 <= i < trail.len() ==> on_board(#[trigger] trail[i], board_size)
    &&& forall|i: int| 0 < i < trail.len() ==> adjacent(trail[i - 1], #[trigger] trail[i])
    &&& trail.no_duplicates()
}

/// The tokens of the cells of a walk, in its order.
pub open spec fn tokens_along(grid: Seq<Seq<Seq<char>>>, trail: Seq<Position>) -> Seq<Seq<char>> {
    trail.map_values(|position: Position| token_at(grid, position))
}

/// The letters that a walk collects: the tokens of its cells, one after the
/// other.
pub open spec fn letters_along(grid: Seq<Seq<Seq<char>>>, trail: Seq<Position>) -> Seq<char> {
    tokens_along(grid, trail).flatten()
}

/// The word of the vocabulary that a walk stands for: the keys by which its
/// steps descend, one after the other.
pub open spec fn stands_for(grid: Seq<Seq<Seq<char>>>, trail: Seq<Position>) -> Seq<char>
    decreases trail.len(),
{
    if trail.len() == 0 {
        Seq::empty()
    } else {
        stands_for(grid, trail.drop_last()) + lookup_key(letters_along(grid, trail))
    }
}

/// `trail` is a walk that collects the letters of `word`, three or more.
pub open spec fn spells(
    grid: Seq<Seq<Seq<char>>>,
    trail: Seq<Position>,
    word: Seq<char>,
) -> bool {
    &&& is_trail(trail, grid.len() as int)
    &&& letters_along(grid, trail) == word
    &&& word.len() > 2
}

/// `word` is found on the grid: a walk spells it and stands for a word of
/// `words`.
pub open spec fn found_on(
    grid: Seq<Seq<Seq<char>>>,
    words: Set<Seq<char>>,
    word: Seq<char>,
) -> bool {
    exists|trail: Seq<Position>| #[trigger]
        spells(grid, trail, word) && words.contains(stands_for(grid, trail))
}

/// `word` is found by a walk that begins with the steps of `start`.
pub(crate) open spec fn found_from(
    grid: Seq<Seq<Seq<char>>>,
    words: Set<Seq<char>>,
    start: Seq<Position>,
    word: Seq<char>,
) -> bool {
    exists|trail: Seq<Position>| #[trigger]
        spells(grid, trail, word) && start.is_prefix_of(trail) && words.contains(
            stands_for(grid, trail),
        )
}

/// `word` is found by a walk that begins with the steps of `start` and then
/// steps on one of the first `count` of the `neighbors`.
pub(crate) open spec fn found_through(
    grid: Seq<Seq<Seq<char>>>,
    words: Set<Seq<char>>,
    start: Seq<Position>,
    neighbors: Seq<Position>,
    count: int,
    word: Seq<char>,
) -> bool {
    exists|k: int|
        0 <= k < count && k < neighbors.len() && found_from(
            grid,
            words,
            start.push(#[trigger] neighbors[k]),
            word,
        )
}

/// `word` is found by a walk that starts on a cell before `(row, column)`, as
/// a reader goes through the board.
pub(crate) open spec fn found_before(
    grid: Seq<Seq<Seq<char>>>,
    words: Set<Seq<char>>,
    row: int,
    column: int,
    word: Seq<char>,
) -> bool {
    exists|first: Position|
        on_board(first, grid.len() as int) && (first.row < row || (first.row == row && first.column
            < column)) && #[trigger] found_from(
            grid,
            words,
            Seq::<Position>::empty().push(first),
            word,
        )
}

/// The entries are the words that begin with `prefix`, each without it.
pub(crate) open spec fn narrowed(
    entries: Entries,
    words: Set<Seq<char>>,
    prefix: Seq<char>,
) -> bool {
    forall|rest: Seq<char>| #[trigger] entries.contains_key(rest) <==> words.contains(prefix + rest)
}

/// A step onto a cell adds the token of the cell to the letters of the walk.
pub(crate) proof fn lemma_letters_push(
    grid: Seq<Seq<Seq<char>>>,
    trail: Seq<Position>,
    next: Position,
)
    ensures
        letters_along(grid, trail.push(next)) == letters_along(grid, trail) + token_at(grid, next),
{
    assert(tokens_along(grid, trail.push(next)) =~= tokens_along(grid, trail).push(
        token_at(grid, next),
    ));
    tokens_along(grid, trail).lemma_flatten_push(token_at(grid, next));
}

/// A walk over cells of a board with a letter on every tile has collected a
/// letter, and so its last step has a key.
proof fn lemma_step_has_key(grid: Seq<Seq<Seq<char>>>, trail: Seq<Position>)
    requires
        square_grid(grid),
        trail.len() > 0,
        on_board(trail.last(), grid.len() as int),
    ensures
        lookup_key(letters_along(grid, trail)).len() > 0,
{
    lemma_letters_push(grid, trail.drop_last(), trail.last());
    assert(trail.drop_last().push(trail.last()) =~= trail);
    assert(token_at(grid, trail.last()).len() > 0);
}

/// A walk that begins with the steps of another agrees with it on each of them.
proof fn lemma_prefix_steps(start: Seq<Position>, trail: Seq<Position>)
    requires
        start.is_prefix_of(trail),
    ensures
        forall|i: int| 0 <= i < start.len() ==> #[trigger] trail[i] == start[i],
{
    assert forall|i: int| 0 <= i < start.len() implies #[trigger] trail[i] == start[i] by {
        assert(trail.subrange(0, start.len() as int)[i] == trail[i]);
    }
}

/// A walk stands for a word that begins with the word of each walk that it
/// begins with, and that is longer by a letter or more for each further step.
pub(crate) proof fn lemma_stands_for_prefix(
    grid: Seq<Seq<Seq<char>>>,
    start: Seq<Position>,
    trail: Seq<Position>,
)
    requires
        square_grid(grid),
        start.is_prefix_of(trail),
        forall|i: int| 0 <= i < trail.len() ==> on_board(#[trigger] trail[i], grid.len() as int),
    ensures
        stands_for(grid, start).is_prefix_of(stands_for(grid, trail)),
        stands_for(grid, trail).len() - stands_for(grid, start).len() >= trail.len() - start.len(),
    decreases trail.len(),
{
    if start.len() == trail.len() {
        assert(start =~= trail);
    } else {
        let before = trail.drop_last();
        assert(start =~= before.subrange(0, start.len() as int));
        lemma_stands_for_prefix(grid, start, before);
        lemma_step_has_key(grid, trail);
        assert(stands_for(grid, start) =~= stands_for(grid, trail).subrange(
            0,
            stands_for(grid, start).len() as int,
        ));
    }
}

/// A text that begins with `front + middle` is `front` and then a text that
/// begins with `middle`.
proof fn lemma_split_prefix(front: Seq<char>, middle: Seq<char>, whole: Seq<char>)
    requires
        (front + middle).is_prefix_of(whole),
    ensures
        front + whole.skip(front.len() as int) == whole,
        middle.is_prefix_of(whole.skip(front.len() as int)),
        whole.skip(front.len() as int).len() == whole.len() - front.len(),
{
    let joined = front + middle;
    let rest = whole.skip(front.len() as int);
    assert forall|i: int| 0 <= i < joined.len() implies joined[i] == whole[i] by {
        assert(whole.subrange(0, joined.len() as int)[i] == whole[i]);
    }
    assert forall|i: int| 0 <= i < front.len() implies front[i] == whole[i] by {
        assert(joined[i] == front[i]);
    }
    assert(front + rest =~= whole);
    assert forall|i: int| 0 <= i < middle.len() implies middle[i] == rest[i] by {
        assert(joined[front.len() + i] == middle[i]);
    }
    assert(middle =~= rest.subrange(0, middle.len() as int));
}

/// No walk steps on a cell that it has stepped on before.
pub(crate) proof fn lemma_visited_blocks(
    grid: Seq<Seq<Seq<char>>>,
    words: Set<Seq<char>>,
    trail: Seq<Position>,
    position: Position,
    word: Seq<char>,
)
    requires
        trail.contains(position),
    ensures
        !found_from(grid, words, trail.push(position), word),
{
    let start = trail.push(position);
    if found_from(grid, words, start, word) {
        let walk = choose|walk: Seq<Position>| #[trigger]
            spells(grid, walk, word) && start.is_prefix_of(walk) && words.contains(
                stands_for(grid, walk),
            );
        lemma_prefix_steps(start, walk);
        let i = choose|i: int| 0 <= i < trail.len() && trail[i] == position;
        assert(walk[i] == start[i]);
        assert(walk[trail.len() as int] == start[trail.len() as int]);
    }
}

/// Where no word of the vocabulary begins with what a walk stands for, no walk
/// that begins with its steps finds a word.
pub(crate) proof fn lemma_pruned(
    grid: Seq<Seq<Seq<char>>>,
    words: Set<Seq<char>>,
    start: Seq<Position>,
    entries: Entries,
    word: Seq<char>,
)
    requires
        square_grid(grid),
        start.len() > 0,
        narrowed(entries, words, stands_for(grid, start.drop_last())),
        !has_word_under(entries, lookup_key(letters_along(grid, start))),
    ensures
        !found_from(grid, words, start, word),
{
    if found_from(grid, words, start, word) {
        let walk = choose|walk: Seq<Position>| #[trigger]
            spells(grid, walk, word) && start.is_prefix_of(walk) && words.contains(
                stands_for(grid, walk),
            );
        let key = lookup_key(letters_along(grid, start));
        let before = stands_for(grid, start.drop_last());
        lemma_stands_for_prefix(grid, start, walk);
        assert(stands_for(grid, start) == before + key);
        lemma_split_prefix(before, key, stands_for(grid, walk));
        let rest = stands_for(grid, walk).skip(before.len() as int);
        assert(entries.contains_key(rest));
    }
}

/// Where no word of the vocabulary goes on beyond what a walk stands for, no
/// longer walk that begins with its steps finds a word.
pub(crate) proof fn lemma_leaf(
    grid: Seq<Seq<Seq<char>>>,
    words: Set<Seq<char>>,
    start: Seq<Position>,
    entries: Entries,
    next: Position,
    word: Seq<char>,
)
    requires
        square_grid(grid),
        narrowed(entries, words, stands_for(grid, start)),
        !has_longer_word(entries),
    ensures
        !found_from(grid, words, start.push(next), word),
{
    let longer = start.push(next);
    if found_from(grid, words, longer, word) {
        let walk = choose|walk: Seq<Position>| #[trigger]
            spells(grid, walk, word) && longer.is_prefix_of(walk) && words.contains(
                stands_for(grid, walk),
            );
        lemma_prefix_steps(longer, walk);
        assert(start =~= walk.subrange(0, start.len() as int));
        lemma_stands_for_prefix(grid, start, walk);
        let reached = stands_for(grid, start);
        assert(reached + Seq::<char>::empty() =~= reached);
        lemma_split_prefix(reached, Seq::empty(), stands_for(grid, walk));
        let rest = stands_for(grid, walk).skip(reached.len() as int);
        assert(entries.contains_key(rest));
        assert(rest.len() > 0);
    }
}

/// A walk that begins with the steps of `start` ends there or goes on to a
/// neighbour of the last cell of `start`.
pub(crate) proof fn lemma_step(
    grid: Seq<Seq<Seq<char>>>,
    words: Set<Seq<char>>,
    start: Seq<Position>,
    word: Seq<char>,
)
    requires
        start.len() > 0,
        grid.len() <= usize::MAX,
    ensures
        found_from(grid, words, start, word) <==> ((spells(grid, start, word) && words.contains(
            stands_for(grid, start),
        )) || found_through(
            grid,
            words,
            start,
            neighbor_positions(start.last(), grid.len() as int),
            8,
            word,
        )),
{
    let neighbors = neighbor_positions(start.last(), grid.len() as int);
    lemma_neighbors_are_adjacent(start.last(), grid.len() as int);
    if found_from(grid, words, start, word) {
        let walk = choose|walk: Seq<Position>| #[trigger]
            spells(grid, walk, word) && start.is_prefix_of(walk) && words.contains(
                stands_for(grid, walk),
            );
        lemma_prefix_steps(start, walk);
        if walk.len() == start.len() {
            assert(walk =~= start);
        } else {
            let next = walk[start.len() as int];
            assert(walk[start.len() - 1] == start.last());
            assert(adjacent(walk[start.len() - 1], next));
            assert(on_board(next, grid.len() as int));
            assert(neighbors.contains(next));
            let k = choose|k: int| 0 <= k < neighbors.len() && neighbors[k] == next;
            assert(start.push(neighbors[k]) =~= walk.subrange(0, start.len() as int + 1));
            assert(start.push(neighbors[k]).is_prefix_of(walk));
            assert(found_from(grid, words, start.push(neighbors[k]), word));
        }
    }
    if spells(grid, start, word) && words.contains(stands_for(grid, start)) {
        assert(start.is_prefix_of(start));
    }
    if found_through(grid, words, start, neighbors, 8, word) {
        let k = choose|k: int|
            0 <= k < 8 && k < neighbors.len() && found_from(
                grid,
                words,
                start.push(#[trigger] neighbors[k]),
                word,
            );
        let longer = start.push(neighbors[k]);
        let walk = choose|walk: Seq<Position>| #[trigger]
            spells(grid, walk, word) && longer.is_prefix_of(walk) && words.contains(
                stands_for(grid, walk),
            );
        lemma_prefix_steps(longer, walk);
        assert(start =~= walk.subrange(0, start.len() as int));
        assert(start.is_prefix_of(walk));
    }
}

/// Every word that is found is found from the cell where its walk starts.
pub(crate) proof fn lemma_found_from_a_cell(
    grid: Seq<Seq<Seq<char>>>,
    words: Set<Seq<char>>,
    word: Seq<char>,
)
    ensures
        found_on(grid, words, word) <==> found_before(grid, words, grid.len() as int, 0, word),
{
    if found_on(grid, words, word) {
        let walk = choose|walk: Seq<Position>| #[trigger]
            spells(grid, walk, word) && words.contains(stands_for(grid, walk));
        if walk.len() == 0 {
            assert(tokens_along(grid, walk) =~= Seq::<Seq<char>>::empty());
        }
        let start = Seq::<Position>::empty().push(walk[0]);
        assert(start =~= walk.subrange(0, 1));
        assert(found_from(grid, words, start, word));
    }
}

} // verus!
