//! The letters collected along a walk over the board, and the key under which
//! each step looks them up in the vocabulary.

use crate::board::BoardCell;
use crate::word::Word;
use vstd::prelude::*;

verus! {

/// The key by which the last step of `path` descends in the vocabulary: the
/// last letter, or, where the letter before it is a `q`, the letters `qu`. So
/// a tile with the token `qu` descends by both of its letters.
pub open spec fn lookup_key(path: Seq<char>) -> Seq<char> {
    if path.len() == 0 {
        Seq::empty()
    } else if path.len() >= 2 && path[path.len() - 2] == 'q' {
        seq!['q', 'u']
    } else {
        seq![path.last()]
    }
}

/// `String::from_iter` over the characters: the string that holds them in
/// their order.
#[verifier::external_body]
fn string_of(chars: &Vec<char>) -> (text: String)
    ensures
        text@ == chars@,
{
    String::from_iter(chars.iter())
}

/// The letters of the cells visited so far, from the first cell to the
/// current one.
#[derive(Debug)]
pub struct TraversalPath {
    pub path: Vec<char>,
}

impl View for TraversalPath {
    type V = Seq<char>;

    open spec fn view(&self) -> Seq<char> {
        self.path@
    }
}

impl TraversalPath {
    pub fn new() -> (path: TraversalPath)
        ensures
            path@ == Seq::<char>::empty(),
    {
        TraversalPath { path: Vec::new() }
    }

    /// The key by which the step just taken descends in the vocabulary.
    pub fn last_chars(&self) -> (key: Vec<char>)
        ensures
            key@ == lookup_key(self@),
    {
        let len = self.path.len();
        if len == 0 {
            Vec::new()
        } else if len == 1 {
            let ultimate_char = self.path[len - 1];
            let key = vec![ultimate_char];
            assert(key@ =~= lookup_key(self@));
            key
        } else {
            let penultimate_char = self.path[len - 2];
            if penultimate_char == 'q' {
                let key = vec!['q', 'u'];
                assert(key@ =~= lookup_key(self@));
                key
            } else {
                let ultimate_char = self.path[len - 1];
                let key = vec![ultimate_char];
                assert(key@ =~= lookup_key(self@));
                key
            }
        }
    }

    /// The letters of the path as a word.
    pub fn to_word(&self) -> (word: Word)
        ensures
            word@ == self@,
    {
        Word::new(string_of(&self.path))
    }

    /// Steps onto a cell: the letters of its token join the path.
    pub fn push(&mut self, board_cell: &BoardCell)
        ensures
            final(self)@ == old(self)@ + board_cell.letter@,
    {
        broadcast use vstd::string::group_string_axioms;

        let chars = board_cell.letter.as_str().chars();
        for c in it: chars
            invariant
                it.seq() == board_cell.letter@,
                self@ == old(self)@ + board_cell.letter@.take(it.index()),
        {
            self.path.push(c);
            assert(board_cell.letter@.take(it.index() + 1) =~= board_cell.letter@.take(
                it.index(),
            ).push(c));
        }
        assert(board_cell.letter@.take(board_cell.letter@.len() as int) =~= board_cell.letter@);
    }

    /// Takes the last letter off the path.
    pub fn step_out(&mut self)
        requires
            old(self)@.len() > 0,
        ensures
            final(self)@ == old(self)@.drop_last(),
    {
        let last = self.path.len() - 1;
        self.path.remove(last);
        assert(self@ =~= old(self)@.drop_last());
    }

    /// Whether the path has the three letters that a word needs.
    pub fn is_long_enough_for_valid_word(&self) -> (long_enough: bool)
        ensures
            long_enough == (self@.len() > 2),
    {
        self.path.len() > 2
    }
}

} // verus!
