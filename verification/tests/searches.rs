use boggle_solver::board::Board;
use boggle_solver::route::{solve, BoardRequest, SolutionResponse};
use boggle_solver::word::Word;

fn grid(rows: &[&[&str]]) -> Vec<Vec<String>> {
    rows.iter()
        .map(|row| row.iter().map(|token| token.to_string()).collect())
        .collect()
}

fn vocabulary(words: &[&str]) -> Vec<Word> {
    words.iter().map(|word| Word::new(word.to_string())).collect()
}

fn search(rows: &[&[&str]], words: &[&str]) -> Vec<String> {
    let found = Board::new(&grid(rows)).enumerate_words(&vocabulary(words));
    found.into_iter().map(|word| word.value).collect()
}

fn answer(rows: &[&[&str]], words: &[&str]) -> SolutionResponse {
    solve(&BoardRequest { board: grid(rows) }, &vocabulary(words)).unwrap()
}

#[test]
fn two_by_two_board_finds_cat_and_cats() {
    let rows: &[&[&str]] = &[&["c", "a"], &["t", "s"]];
    let words = ["cat", "cats", "at", "ca"];
    assert_eq!(search(rows, &words), vec!["cat", "cats"]);
    let solution = answer(rows, &words);
    assert_eq!(solution.words, vec!["cat", "cats"]);
    // One point for three letters and one for four.
    assert_eq!(solution.score, 2);
}

#[test]
fn new_solution_is_empty() {
    let solution = SolutionResponse::new();
    assert!(solution.words.is_empty());
    assert_eq!(solution.score, 0);
}

#[test]
fn words_under_three_letters_are_never_found() {
    let rows: &[&[&str]] = &[&["a", "t"], &["o", "n"]];
    assert_eq!(search(rows, &["a", "at", "to", "on", "no", ""]), Vec::<String>::new());
    assert_eq!(search(rows, &["at", "tan", "to", "ton", "not"]), vec!["not", "tan", "ton"]);
}

#[test]
fn empty_vocabulary_finds_nothing() {
    let rows: &[&[&str]] = &[&["c", "a"], &["t", "s"]];
    assert_eq!(search(rows, &[]), Vec::<String>::new());
    let solution = answer(rows, &[]);
    assert!(solution.words.is_empty());
    assert_eq!(solution.score, 0);
}

#[test]
fn empty_board_finds_nothing() {
    assert_eq!(search(&[], &["cat", "cats"]), Vec::<String>::new());
    let solution = answer(&[], &["cat", "cats"]);
    assert!(solution.words.is_empty());
    assert_eq!(solution.score, 0);
}

#[test]
fn single_cell_board_finds_nothing() {
    assert_eq!(search(&[&["a"]], &["a", "aa", "aaa"]), Vec::<String>::new());
}

#[test]
fn no_cell_is_used_twice_in_a_word() {
    let rows: &[&[&str]] = &[&["t", "a"], &["x", "y"]];
    assert_eq!(search(rows, &["tat", "ata", "tax", "taxa"]), vec!["tax"]);
}

#[test]
fn a_letter_on_two_cells_can_be_used_twice() {
    let rows: &[&[&str]] = &[&["t", "a"], &["t", "y"]];
    assert_eq!(search(rows, &["tat", "tatty", "tay"]), vec!["tat", "tay"]);
}

#[test]
fn word_needs_neighboring_cells() {
    let rows: &[&[&str]] = &[&["c", "x", "t"], &["x", "a", "x"], &["s", "x", "x"]];
    // c, a, t, s all touch a, but t does not touch s.
    assert_eq!(search(rows, &["cat", "cats", "cast", "sat"]), vec!["cat", "sat"]);
}

#[test]
fn word_found_along_several_walks_is_listed_once() {
    let rows: &[&[&str]] = &[&["a", "a"], &["a", "a"]];
    assert_eq!(search(rows, &["aaa", "aaaa", "aaaaa"]), vec!["aaa", "aaaa"]);
    let solution = answer(rows, &["aaa", "aaaa", "aaaaa"]);
    assert_eq!(solution.score, 2);
}

#[test]
fn repeated_vocabulary_word_is_listed_once() {
    let rows: &[&[&str]] = &[&["c", "a"], &["t", "s"]];
    assert_eq!(search(rows, &["cat", "cat", "cat"]), vec!["cat"]);
}

#[test]
fn found_words_come_in_the_order_of_the_dictionary() {
    let rows: &[&[&str]] = &[&["s", "t", "a"], &["r", "e", "n"], &["d", "o", "g"]];
    let words = [
        "tree", "stern", "rest", "nest", "ten", "net", "set", "dog", "god", "gone", "done", "node",
        "earn", "tea", "eat", "ant", "tan", "nets", "tens", "rent", "rode", "zebra", "stared",
    ];
    let found = search(rows, &words);
    let mut sorted = found.clone();
    sorted.sort();
    sorted.dedup();
    assert_eq!(found, sorted);
    assert_eq!(
        found,
        vec![
            "ant", "dog", "done", "eat", "god", "gone", "nest", "net", "nets", "node", "rent",
            "rest", "rode", "set", "tan", "tea", "ten"
        ]
    );
}

#[test]
fn searching_twice_gives_the_same_result() {
    let rows: &[&[&str]] = &[&["s", "t", "a"], &["r", "e", "n"], &["d", "o", "g"]];
    let words = ["stern", "rest", "nest", "ten", "net", "set", "dog", "gone", "earn", "tea"];
    let first = search(rows, &words);
    let second = search(rows, &words);
    assert_eq!(first, second);
    assert_eq!(first, vec!["dog", "gone", "nest", "net", "rest", "set", "tea", "ten"]);
    let reversed: Vec<&str> = words.iter().rev().copied().collect();
    assert_eq!(search(rows, &reversed), first);
}

#[test]
fn every_found_word_is_a_vocabulary_word_of_three_letters_or_more() {
    let rows: &[&[&str]] = &[&["s", "t", "a"], &["r", "e", "n"], &["d", "o", "g"]];
    let words = ["st", "ste", "stern", "er", "ern", "no", "nod", "node", "e", "at", "ate"];
    let found = search(rows, &words);
    assert_eq!(found, vec!["ate", "nod", "node", "ste"]);
    for word in &found {
        assert!(word.chars().count() >= 3);
        assert!(words.contains(&word.as_str()));
    }
}

#[test]
fn letter_that_starts_no_word_contributes_nothing() {
    let rows: &[&[&str]] = &[&["c", "a"], &["t", "z"]];
    let found = search(rows, &["cat", "act", "za", "z"]);
    assert_eq!(found, vec!["act", "cat"]);
    assert!(found.iter().all(|word| !word.contains('z')));
}

#[test]
fn words_with_a_letter_off_the_board_are_not_found() {
    let rows: &[&[&str]] = &[&["c", "a"], &["t", "s"]];
    assert_eq!(search(rows, &["cab", "cast", "cost", "scat"]), vec!["cast", "scat"]);
}

#[test]
fn qu_tile_finds_quiz_without_a_u_tile() {
    let rows: &[&[&str]] = &[&["qu", "i"], &["z", "x"]];
    assert_eq!(search(rows, &["quiz", "quit", "qiz", "ziqu"]), vec!["quiz", "ziqu"]);
    let solution = answer(rows, &["quiz", "quit", "qiz"]);
    assert_eq!(solution.words, vec!["quiz"]);
    assert_eq!(solution.score, 1);
}

#[test]
fn qu_tile_in_the_middle_of_a_word() {
    let rows: &[&[&str]] = &[&["s", "qu", "x"], &["x", "i", "d"], &["x", "x", "x"]];
    assert_eq!(search(rows, &["squid", "quid", "squad"]), vec!["quid", "squid"]);
    assert_eq!(answer(rows, &["squid", "quid", "squad"]).score, 2 + 1);
}

#[test]
fn qu_tile_counts_as_two_letters_of_a_word() {
    let rows: &[&[&str]] = &[&["qu", "a"], &["x", "y"]];
    assert_eq!(search(rows, &["qua", "quay", "qu"]), vec!["qua", "quay"]);
}

#[test]
fn tile_of_several_letters_descends_by_its_last_letter() {
    let rows: &[&[&str]] = &[&["th", "e"], &["n", "x"]];
    // The walk th, e, n collects "then" and asks the vocabulary for "hen".
    assert_eq!(search(rows, &["hen"]), vec!["then"]);
    assert_eq!(search(rows, &["then", "ten"]), Vec::<String>::new());
}

#[test]
fn step_after_a_q_tile_looks_up_qu() {
    let rows: &[&[&str]] = &[&["q", "i"], &["z", "u"]];
    // After a tile q the next step is looked up as "qu" below "q": the walks
    // q, i, z and q, u, z both stand for "qquz".
    assert_eq!(search(rows, &["qquz"]), vec!["qiz", "quz"]);
    assert_eq!(search(rows, &["quiz"]), Vec::<String>::new());
    assert_eq!(search(rows, &["qiz", "quz", "ziq"]), vec!["ziq"]);
}

#[test]
fn word_that_ends_on_q_is_found_as_it_is() {
    let rows: &[&[&str]] = &[&["i", "r"], &["a", "q"]];
    assert_eq!(search(rows, &["iraq", "qari"]), vec!["iraq"]);
}

#[test]
fn vocabulary_word_with_a_letter_on_no_tile_is_left_out() {
    let rows: &[&[&str]] = &[&["q", "i"], &["z", "x"]];
    // With no u on the board, "qquz" is no word of the search.
    assert_eq!(search(rows, &["qquz"]), Vec::<String>::new());
}

#[test]
fn score_is_the_sum_over_the_found_words() {
    let rows: &[&[&str]] = &[&["s", "t", "a"], &["r", "e", "n"], &["d", "o", "g"]];
    let solution = answer(rows, &["nodes", "rest", "ten", "zebra", "st"]);
    assert_eq!(solution.words, vec!["nodes", "rest", "ten"]);
    assert_eq!(solution.score, 2 + 1 + 1);
}

#[test]
fn long_words_score_by_the_table() {
    let rows: &[&[&str]] = &[
        &["p", "l", "a", "x"],
        &["x", "x", "y", "x"],
        &["x", "e", "r", "x"],
        &["x", "s", "x", "x"],
    ];
    let solution = answer(rows, &["play", "player", "players", "layer", "layers"]);
    assert_eq!(solution.words, vec!["layer", "layers", "play", "player", "players"]);
    assert_eq!(solution.score, 2 + 3 + 1 + 3 + 5);
}

#[test]
fn word_of_eight_letters_scores_eleven() {
    let rows: &[&[&str]] = &[&["a", "b", "c"], &["f", "e", "d"], &["g", "h", "i"]];
    let solution = answer(rows, &["abcdefgh", "abcdefghi", "abcdefghij"]);
    assert_eq!(solution.words, vec!["abcdefgh", "abcdefghi"]);
    assert_eq!(solution.score, 22);
}

/// Every word of three letters or more that some walk over the board collects.
fn collect_every_walk(rows: &[&[&str]]) -> Vec<String> {
    fn extend(
        rows: &[&[&str]],
        row: usize,
        column: usize,
        used: &mut Vec<(usize, usize)>,
        letters: &mut String,
        collected: &mut Vec<String>,
    ) {
        if used.contains(&(row, column)) {
            return;
        }
        used.push((row, column));
        let length = letters.len();
        letters.push_str(rows[row][column]);
        if letters.chars().count() > 2 {
            collected.push(letters.clone());
        }
        let size = rows.len();
        for next_row in row.saturating_sub(1)..(row + 2).min(size) {
            for next_column in column.saturating_sub(1)..(column + 2).min(size) {
                extend(rows, next_row, next_column, used, letters, collected);
            }
        }
        letters.truncate(length);
        used.pop();
    }

    let mut collected = Vec::new();
    for row in 0..rows.len() {
        for column in 0..rows.len() {
            extend(rows, row, column, &mut Vec::new(), &mut String::new(), &mut collected);
        }
    }
    collected.sort();
    collected.dedup();
    collected
}

#[test]
fn search_finds_what_trying_every_walk_finds() {
    let rows: &[&[&str]] = &[&["s", "t", "a"], &["r", "e", "qu"], &["d", "o", "i"]];
    let words = [
        "set", "rest", "tea", "quo", "quod", "quoi", "equi", "toque", "roque", "requite", "doe",
        "does", "ode", "odes", "rode", "quire", "store", "stored", "steroid", "aqu", "aque", "teq",
        "dose", "redo", "tred", "io", "oi", "tequio", "zest", "tests", "eat", "ate", "eta", "tae",
    ];
    let every_walk = collect_every_walk(rows);
    let mut expected: Vec<String> = words
        .iter()
        .filter(|word| every_walk.iter().any(|walk| walk == *word))
        .map(|word| word.to_string())
        .collect();
    expected.sort();
    expected.dedup();
    assert!(expected.contains(&"quod".to_string()));
    assert!(expected.contains(&"roque".to_string()));
    assert!(!expected.contains(&"tests".to_string()));
    assert_eq!(search(rows, &words), expected);
}

#[test]
fn search_with_every_walk_for_vocabulary_finds_every_walk() {
    let rows: &[&[&str]] = &[&["a", "b", "a"], &["c", "qu", "b"], &["a", "c", "d"]];
    let every_walk = collect_every_walk(rows);
    let words: Vec<&str> = every_walk.iter().map(|walk| walk.as_str()).collect();
    assert!(every_walk.len() > 1000);
    assert_eq!(search(rows, &words), every_walk);
}
