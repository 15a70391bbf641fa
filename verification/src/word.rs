//! Vocabulary words and their scores.

use crate::letters::{admissible, letter_present, token_values};
use vstd::prelude::*;
use vstd::utf8::{encode_utf8, is_ascii_chars, is_ascii_chars_encode_utf8};

verus! {

/// The points that a word of `len` bytes is worth.
pub open spec fn score_of_length(len: nat) -> int {
    if len == 3 || len == 4 {
        1
    } else if len == 5 {
        2
    } else if len == 6 {
        3
    } else if len == 7 {
        5
    } else {
        11
    }
}

/// The points that a word is worth: those of its length in bytes of UTF-8,
/// which for a word of ASCII letters is the number of its letters.
pub open spec fn points(word: Seq<char>) -> int {
    score_of_length(encode_utf8(word).len())
}

/// A word of ASCII characters is scored by the number of its characters.
pub proof fn lemma_ascii_word_points(word: Seq<char>)
    requires
        is_ascii_chars(word),
    ensures
        points(word) == score_of_length(word.len()),
{
    is_ascii_chars_encode_utf8(word);
}

/// The points of all the words together.
pub open spec fn total_points(words: Seq<Seq<char>>) -> int
    decreases words.len(),
{
    if words.len() == 0 {
        0
    } else {
        total_points(words.drop_last()) + points(words.last())
    }
}

/// The words as sequences of characters.
pub open spec fn word_values(words: Seq<Word>) -> Seq<Seq<char>> {
    words.map_values(|word: Word| word@)
}

/// Whether `text` holds the character `letter`.
fn text_holds(text: &str, letter: char) -> (held: bool)
    ensures
        held == text@.contains(letter),
{
    broadcast use vstd::string::group_string_axioms;

    let chars = text.chars();
    for c in it: chars
        invariant
            it.seq() == text@,
            forall|i: int| 0 <= i < it.index() ==> text@[i] != letter,
    {
        if c == letter {
            return true;
        }
    }
    false
}

/// Whether one of the tokens holds the character `letter`.
fn letter_among(tokens: &Vec<String>, letter: char) -> (present: bool)
    ensures
        present == letter_present(token_values(tokens@), letter),
{
    let mut index: usize = 0;
    while index < tokens.len()
        invariant
            index <= tokens.len(),
            forall|i: int|
                0 <= i < index ==> !(#[trigger] token_values(tokens@)[i]).contains(letter),
        decreases tokens.len() - index,
    {
        if text_holds(tokens[index].as_str(), letter) {
            assert(token_values(tokens@)[index as int].contains(letter));
            return true;
        }
        index += 1;
    }
    false
}

/// A word of the vocabulary, or one found on a board.
#[derive(Clone, Debug, PartialEq, Eq, PartialOrd, Ord, Hash)]
pub struct Word {
    pub value: String,
}

impl View for Word {
    type V = Seq<char>;

    open spec fn view(&self) -> Seq<char> {
        self.value@
    }
}

impl Word {
    /// The points that this word is worth.
    pub open spec fn spec_score(&self) -> int {
        points(self@)
    }

    pub fn new(value: String) -> (word: Word)
        ensures
            word.value == value,
            word@ == value@,
    {
        Word { value }
    }

    /// Whether the word can be written with the letters of the tokens alone.
    pub fn matches(&self, letter_set: &Vec<String>) -> (usable: bool)
        ensures
            usable == admissible(self@, token_values(letter_set@)),
    {
        broadcast use vstd::string::group_string_axioms;

        let chars = self.value.as_str().chars();
        for c in it: chars
            invariant
                it.seq() == self@,
                forall|k: int|
                    0 <= k < it.index() ==> letter_present(
                        token_values(letter_set@),
                        #[trigger] self@[k],
                    ),
        {
            if !letter_among(letter_set, c) {
                return false;
            }
        }
        true
    }

    /// Scores the word by its length: 1 point for 3 or 4, 2 for 5, 3 for 6,
    /// 5 for 7, and 11 for any other length.
    pub fn score(&self) -> (points: i32)
        ensures
            points == self.spec_score(),
    {
        let len: usize = self.value.as_str().as_bytes().len();
        if len == 3 || len == 4 {
            1
        } else if len == 5 {
            2
        } else if len == 6 {
            3
        } else if len == 7 {
            5
        } else {
            11
        }
    }
}

} // verus!
