use boggle_solver::board::BoardCell;
use boggle_solver::path::TraversalPath;
use boggle_solver::position::Position;
use boggle_solver::vocabulary::{Vocabulary, WordIndex};
use boggle_solver::word::Word;

fn words(texts: &[&str]) -> Vec<Word> {
    texts.iter().map(|text| Word::new(text.to_string())).collect()
}

fn tokens(texts: &[&str]) -> Vec<String> {
    texts.iter().map(|text| text.to_string()).collect()
}

/// Descends from `vocabulary` along the tiles, one step for each.
fn walk<'a>(vocabulary: Vocabulary<'a>, tiles: &[&str]) -> Option<Vocabulary<'a>> {
    let mut path = TraversalPath::new();
    let mut current = vocabulary;
    for tile in tiles {
        path.push(&BoardCell::new(Position::new(0, 0), tile.to_string()));
        current = current.subvocabulary_using_traversal_ending(&path)?;
    }
    Some(current)
}

/// Descends from `vocabulary` along the letters of `text`, one step for each.
fn descend<'a>(vocabulary: Vocabulary<'a>, text: &str) -> Option<Vocabulary<'a>> {
    let tiles: Vec<String> = text.chars().map(|letter| letter.to_string()).collect();
    let tiles: Vec<&str> = tiles.iter().map(|tile| tile.as_str()).collect();
    walk(vocabulary, &tiles)
}

#[test]
fn empty_index_has_no_words() {
    let index = WordIndex::build(&[], &tokens(&["a"]));
    let root = index.vocabulary();
    assert!(!root.current_node_is_word_end());
    assert!(!root.has_longer_words());
    assert!(descend(index.vocabulary(), "a").is_none());
}

#[test]
fn index_holds_the_words_it_was_built_from() {
    let index = WordIndex::build(&words(&["cat", "cats", "at"]), &tokens(&["c", "a", "t", "s"]));
    assert!(descend(index.vocabulary(), "cat").unwrap().current_node_is_word_end());
    assert!(descend(index.vocabulary(), "cats").unwrap().current_node_is_word_end());
    assert!(descend(index.vocabulary(), "at").unwrap().current_node_is_word_end());
}

#[test]
fn prefix_of_a_word_is_a_node_but_no_word() {
    let index = WordIndex::build(&words(&["cat", "cats"]), &tokens(&["c", "a", "t", "s"]));
    let root = index.vocabulary();
    assert!(!root.current_node_is_word_end());
    assert!(root.has_longer_words());
    let ca = descend(index.vocabulary(), "ca").unwrap();
    assert!(!ca.current_node_is_word_end());
    assert!(ca.has_longer_words());
}

#[test]
fn node_tells_whether_longer_words_follow() {
    let index = WordIndex::build(&words(&["cat", "cats"]), &tokens(&["c", "a", "t", "s"]));
    assert!(descend(index.vocabulary(), "cat").unwrap().has_longer_words());
    assert!(!descend(index.vocabulary(), "cats").unwrap().has_longer_words());
}

#[test]
fn missing_prefix_is_no_node() {
    let index = WordIndex::build(&words(&["cat", "cats"]), &tokens(&["c", "a", "t", "s"]));
    assert!(descend(index.vocabulary(), "t").is_none());
    assert!(descend(index.vocabulary(), "cs").is_none());
    assert!(descend(index.vocabulary(), "catsa").is_none());
}

#[test]
fn descent_with_an_empty_path_stays_at_the_node() {
    let index = WordIndex::build(&words(&["cat"]), &tokens(&["c", "a", "t"]));
    let root = index.vocabulary();
    let same = root.subvocabulary_using_traversal_ending(&TraversalPath::new()).unwrap();
    assert!(same.has_longer_words());
    assert!(!same.current_node_is_word_end());
    assert!(descend(same, "cat").unwrap().current_node_is_word_end());
}

#[test]
fn index_leaves_out_words_with_letters_off_the_board() {
    let index = WordIndex::build(&words(&["cat", "cab", "tab"]), &tokens(&["c", "a", "t"]));
    assert!(descend(index.vocabulary(), "cat").is_some());
    assert!(descend(index.vocabulary(), "cab").is_none());
    assert!(descend(index.vocabulary(), "t").is_none());
}

#[test]
fn index_holds_a_repeated_word_once() {
    let index = WordIndex::build(&words(&["cat", "cat"]), &tokens(&["c", "a", "t"]));
    let cat = descend(index.vocabulary(), "cat").unwrap();
    assert!(cat.current_node_is_word_end());
    assert!(!cat.has_longer_words());
}

#[test]
fn empty_word_marks_the_root() {
    let index = WordIndex::build(&words(&[""]), &tokens(&["c"]));
    let root = index.vocabulary();
    assert!(root.current_node_is_word_end());
    assert!(!root.has_longer_words());
}

#[test]
fn qu_tile_descends_by_both_of_its_letters() {
    let index = WordIndex::build(&words(&["quiz", "quit"]), &tokens(&["qu", "i", "z"]));
    assert!(walk(index.vocabulary(), &["qu"]).unwrap().has_longer_words());
    assert!(!walk(index.vocabulary(), &["qu"]).unwrap().current_node_is_word_end());
    assert!(walk(index.vocabulary(), &["qu", "i", "z"]).unwrap().current_node_is_word_end());
    assert!(walk(index.vocabulary(), &["qu", "i", "t"]).is_none());
    assert!(walk(index.vocabulary(), &["qu", "z"]).is_none());
}

#[test]
fn step_after_q_descends_by_qu() {
    let index = WordIndex::build(&words(&["qquz", "quiz"]), &tokens(&["q", "u", "i", "z"]));
    // The walk q, i, z asks for "q", then "qu" below it, then "z".
    assert!(descend(index.vocabulary(), "qi").is_some());
    assert!(descend(index.vocabulary(), "qiz").unwrap().current_node_is_word_end());
    // The walk q, u, i asks for "q", "qu", then "i": there is no "qqui".
    assert!(descend(index.vocabulary(), "qui").is_none());
}
