use jellespelletjes_api::games::{games, is_known_game, sudoku_mode};
use jellespelletjes_api::text::str_eq;

#[test]
fn known_games() {
    assert_eq!(games(), vec!["sudokudo", "woordle", "woordle6", "wordle", "wordle6"]);
    for g in games() {
        assert!(is_known_game(g));
    }
    assert!(!is_known_game("lettersoep"));
    assert!(!is_known_game("Woordle"));
}

#[test]
fn sudoku_modes() {
    assert_eq!(sudoku_mode("sudokudo"), Some("normal"));
    assert_eq!(sudoku_mode("sudokudo-expert"), Some("expert"));
    assert_eq!(sudoku_mode("woordle"), None);
}

#[test]
fn string_equality() {
    assert!(str_eq("abc", "abc"));
    assert!(!str_eq("abc", "abd"));
    assert!(!str_eq("ab", "abc"));
}
