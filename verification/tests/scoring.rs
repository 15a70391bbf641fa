use boggle_solver::word::Word;

fn score_of(text: &str) -> i32 {
    Word::new(text.to_string()).score()
}

#[test]
fn words_of_three_and_four_letters_score_one() {
    assert_eq!(score_of("cat"), 1);
    assert_eq!(score_of("cats"), 1);
}

#[test]
fn words_of_five_letters_score_two() {
    assert_eq!(score_of("baker"), 2);
}

#[test]
fn words_of_six_letters_score_three() {
    assert_eq!(score_of("bakers"), 3);
}

#[test]
fn words_of_seven_letters_score_five() {
    assert_eq!(score_of("bakery!"), 5);
}

#[test]
fn words_of_eight_letters_and_more_score_eleven() {
    assert_eq!(score_of("bakeries"), 11);
    assert_eq!(score_of("bookkeeper"), 11);
    assert_eq!(score_of("antidisestablishmentarianism"), 11);
}

#[test]
fn words_under_three_letters_score_eleven() {
    assert_eq!(score_of(""), 11);
    assert_eq!(score_of("a"), 11);
    assert_eq!(score_of("at"), 11);
}

#[test]
fn length_is_counted_in_bytes() {
    // Two characters, three bytes.
    assert_eq!(score_of("\u{e9}a"), 1);
    // Three characters, six bytes.
    assert_eq!(score_of("\u{e9}\u{e9}\u{e9}"), 3);
}

#[test]
fn word_keeps_its_value() {
    let word = Word::new("tile".to_string());
    assert_eq!(word.value, "tile");
}

#[test]
fn words_compare_by_value() {
    let apple = Word::new("apple".to_string());
    let apply = Word::new("apply".to_string());
    assert!(apple < apply);
    assert_eq!(apple, Word::new("apple".to_string()));
    assert_ne!(apple, apply);
}

#[test]
fn word_matches_when_every_letter_is_on_a_token() {
    let tokens = vec!["c".to_string(), "a".to_string(), "t".to_string(), "qu".to_string()];
    assert!(Word::new("cat".to_string()).matches(&tokens));
    assert!(Word::new("tact".to_string()).matches(&tokens));
    assert!(Word::new("quat".to_string()).matches(&tokens));
    assert!(Word::new("".to_string()).matches(&tokens));
}

#[test]
fn word_does_not_match_with_a_letter_off_the_tokens() {
    let tokens = vec!["c".to_string(), "a".to_string(), "t".to_string()];
    assert!(!Word::new("cats".to_string()).matches(&tokens));
    assert!(!Word::new("scat".to_string()).matches(&tokens));
    assert!(!Word::new("cat".to_string()).matches(&Vec::new()));
}
