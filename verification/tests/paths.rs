use boggle_solver::board::BoardCell;
use boggle_solver::order::{rank_against, Rank};
use boggle_solver::path::TraversalPath;
use boggle_solver::position::Position;

fn cell(letter: &str) -> BoardCell {
    BoardCell::new(Position::new(0, 0), letter.to_string())
}

fn path_of(letters: &str) -> TraversalPath {
    let mut path = TraversalPath::new();
    for letter in letters.chars() {
        path.push(&cell(&letter.to_string()));
    }
    path
}

#[test]
fn new_path_is_empty() {
    let path = TraversalPath::new();
    assert!(path.path.is_empty());
    assert_eq!(path.last_chars(), Vec::<char>::new());
    assert_eq!(path.to_word().value, "");
    assert!(!path.is_long_enough_for_valid_word());
}

#[test]
fn push_adds_the_letters_of_the_token() {
    let mut path = TraversalPath::new();
    path.push(&cell("c"));
    assert_eq!(path.path, vec!['c']);
    path.push(&cell("qu"));
    assert_eq!(path.path, vec!['c', 'q', 'u']);
    path.push(&cell("xyz"));
    assert_eq!(path.path, vec!['c', 'q', 'u', 'x', 'y', 'z']);
    path.push(&cell(""));
    assert_eq!(path.path, vec!['c', 'q', 'u', 'x', 'y', 'z']);
}

#[test]
fn last_chars_of_a_qu_tile_is_qu() {
    let mut path = TraversalPath::new();
    path.push(&cell("qu"));
    assert_eq!(path.last_chars(), vec!['q', 'u']);
    path.push(&cell("i"));
    assert_eq!(path.last_chars(), vec!['i']);
    path.push(&cell("qu"));
    assert_eq!(path.last_chars(), vec!['q', 'u']);
}

#[test]
fn step_out_removes_the_last_letter() {
    let mut path = path_of("cat");
    path.step_out();
    assert_eq!(path.path, vec!['c', 'a']);
    path.step_out();
    path.step_out();
    assert!(path.path.is_empty());
}

#[test]
fn last_chars_of_one_letter_is_that_letter() {
    assert_eq!(path_of("c").last_chars(), vec!['c']);
    assert_eq!(path_of("q").last_chars(), vec!['q']);
}

#[test]
fn last_chars_is_the_last_letter() {
    assert_eq!(path_of("ca").last_chars(), vec!['a']);
    assert_eq!(path_of("cat").last_chars(), vec!['t']);
    assert_eq!(path_of("aq").last_chars(), vec!['q']);
    assert_eq!(path_of("qat").last_chars(), vec!['t']);
}

#[test]
fn last_chars_after_q_is_qu() {
    assert_eq!(path_of("qi").last_chars(), vec!['q', 'u']);
    assert_eq!(path_of("aqi").last_chars(), vec!['q', 'u']);
    assert_eq!(path_of("qq").last_chars(), vec!['q', 'u']);
    assert_eq!(path_of("qu").last_chars(), vec!['q', 'u']);
}

#[test]
fn to_word_spells_the_path() {
    assert_eq!(path_of("cats").to_word().value, "cats");
    assert_eq!(path_of("qiz").to_word().value, "qiz");
    assert_eq!(path_of("\u{e9}t\u{e9}").to_word().value, "\u{e9}t\u{e9}");
}

#[test]
fn path_is_long_enough_from_three_letters_on() {
    assert!(!path_of("c").is_long_enough_for_valid_word());
    assert!(!path_of("ca").is_long_enough_for_valid_word());
    assert!(path_of("cat").is_long_enough_for_valid_word());
    assert!(path_of("cats").is_long_enough_for_valid_word());
}

fn rank(path: &str, word: &str) -> Rank {
    rank_against(&path.chars().collect(), word)
}

#[test]
fn equal_words_rank_the_same() {
    assert_eq!(rank("", ""), Rank::Same);
    assert_eq!(rank("cat", "cat"), Rank::Same);
}

#[test]
fn a_word_ranks_before_its_extensions() {
    assert_eq!(rank("", "a"), Rank::Before);
    assert_eq!(rank("cat", "cats"), Rank::Before);
    assert_eq!(rank("cats", "cat"), Rank::After);
}

#[test]
fn words_rank_by_their_first_difference() {
    assert_eq!(rank("cat", "cot"), Rank::Before);
    assert_eq!(rank("cot", "cat"), Rank::After);
    assert_eq!(rank("b", "abc"), Rank::After);
    assert_eq!(rank("Zebra", "apple"), Rank::Before);
    assert_eq!(rank("z", "\u{e9}"), Rank::Before);
}

#[test]
fn rank_agrees_with_the_order_of_strings() {
    let words = ["", "a", "ab", "abc", "b", "ba", "B", "\u{e9}", "z\u{e9}", "\u{1F600}", "zz"];
    for first in words {
        for second in words {
            let expected = if first < second {
                Rank::Before
            } else if first == second {
                Rank::Same
            } else {
                Rank::After
            };
            assert_eq!(rank(first, second), expected);
        }
    }
}
