use boggle_solver::board::Board;
use boggle_solver::letters::distinct_tokens;
use boggle_solver::position::Position;
use boggle_solver::route::BoardRequest;

fn grid(rows: &[&[&str]]) -> Vec<Vec<String>> {
    rows.iter()
        .map(|row| row.iter().map(|token| token.to_string()).collect())
        .collect()
}

#[test]
fn board_keeps_every_token_in_its_place() {
    let letters = grid(&[&["a", "b", "c"], &["d", "qu", "f"], &["g", "h", "i"]]);
    let board = Board::new(&letters);
    assert_eq!(board.size(), 3);
    for row in 0..3 {
        for column in 0..3 {
            let cell = board.cell(Position::new(row, column));
            assert_eq!(cell.position, Position::new(row, column));
            assert_eq!(cell.letter, letters[row][column]);
        }
    }
}

#[test]
fn board_cells_know_their_neighbors() {
    let letters = grid(&[&["a", "b", "c"], &["d", "e", "f"], &["g", "h", "i"]]);
    let board = Board::new(&letters);
    assert_eq!(board.cell(Position::new(0, 0)).neighbors.len(), 3);
    assert_eq!(board.cell(Position::new(0, 1)).neighbors.len(), 5);
    assert_eq!(board.cell(Position::new(1, 1)).neighbors.len(), 8);
    assert_eq!(
        board.cell(Position::new(2, 2)).neighbors,
        vec![Position::new(1, 1), Position::new(1, 2), Position::new(2, 1)]
    );
    for row in 0..3 {
        for column in 0..3 {
            let position = Position::new(row, column);
            assert_eq!(board.cell(position).neighbors, position.get_neighbor_positions(3));
        }
    }
}

#[test]
fn empty_board_has_no_cells() {
    let board = Board::new(&[]);
    assert_eq!(board.size(), 0);
    assert!(board.letter_set().is_empty());
}

#[test]
fn letter_set_lists_each_token_once_in_reading_order() {
    let letters = grid(&[&["t", "e", "e"], &["s", "t", "qu"], &["e", "qu", "a"]]);
    let board = Board::new(&letters);
    let expected: Vec<String> =
        ["t", "e", "s", "qu", "a"].iter().map(|token| token.to_string()).collect();
    assert_eq!(board.letter_set(), &expected);
    assert_eq!(distinct_tokens(&letters), expected);
}

#[test]
fn distinct_tokens_of_a_board_without_repeats_are_its_tokens() {
    let letters = grid(&[&["c", "a"], &["t", "s"]]);
    let expected: Vec<String> =
        ["c", "a", "t", "s"].iter().map(|token| token.to_string()).collect();
    assert_eq!(distinct_tokens(&letters), expected);
}

#[test]
fn square_board_with_tokens_is_well_formed() {
    assert!(BoardRequest { board: grid(&[&["c", "a"], &["t", "s"]]) }.is_well_formed());
    assert!(BoardRequest { board: grid(&[&["qu"]]) }.is_well_formed());
    assert!(BoardRequest { board: Vec::new() }.is_well_formed());
}

#[test]
fn board_with_a_short_or_long_row_is_not_well_formed() {
    assert!(!BoardRequest { board: grid(&[&["c", "a"], &["t"]]) }.is_well_formed());
    assert!(!BoardRequest { board: grid(&[&["c", "a", "b"], &["t", "s"]]) }.is_well_formed());
    assert!(!BoardRequest { board: grid(&[&["c", "a"]]) }.is_well_formed());
    assert!(!BoardRequest { board: grid(&[&[]]) }.is_well_formed());
}

#[test]
fn board_with_an_empty_token_is_not_well_formed() {
    assert!(!BoardRequest { board: grid(&[&["c", ""], &["t", "s"]]) }.is_well_formed());
}
