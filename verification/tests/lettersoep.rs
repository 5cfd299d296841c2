use jellespelletjes_api::games::lettersoep::{puzzle_request, servable, RequestError};
use chrono::Datelike;
use jellespelletjes_api::games::lettersoep::{
    daily_puzzle, epoch, find_all_moves, fnv1a, is_vowel, letter_value, opening_words,
    premium_at, puzzle_number, score_placement, seed_for_date, Board, Dictionary, Premium,
    PuzzleError, Rng, Tile, GENERATOR_VERSION,
};
use jellespelletjes_api::games::lettersoep::bag::draw_rack;

fn day(y: i32, m: u32, d: u32) -> i32 {
    chrono::NaiveDate::from_ymd_opt(y, m, d).unwrap().num_days_from_ce()
}

#[test]
fn seed_derivation_is_stable() {
    assert_eq!(seed_for_date(day(2026, 10, 2)), Some(3018252800));
}

#[test]
fn day_one_seed_and_number() {
    assert_eq!(seed_for_date(day(2026, 10, 1)), Some(3068585657));
    assert_eq!(epoch(), day(2026, 10, 1));
    assert_eq!(puzzle_number(day(2026, 10, 1)), 1);
    assert_eq!(puzzle_number(day(2026, 10, 31)), 31);
    assert_eq!(GENERATOR_VERSION, "v1");
}

#[test]
fn seed_of_an_impossible_day() {
    assert_eq!(seed_for_date(i32::MAX), None);
}

#[test]
fn fnv1a_known_values() {
    assert_eq!(fnv1a(""), 2166136261);
    assert_eq!(fnv1a("a"), 3826002220);
}

#[test]
fn mulberry_sequence() {
    let mut rng = Rng::new(42);
    assert_eq!(rng.next_u32(), 2581720956);
    assert_eq!(rng.next_u32(), 1925393290);
    assert_eq!(rng.next_u32(), 3661312704);
}

#[test]
fn bounded_draws_and_shuffle() {
    let mut rng = Rng::new(42);
    assert_eq!(rng.next_below(10), 6);
    assert_eq!(rng.next_below(7), 2);
    assert_eq!(rng.next_below(100), 4);
    let mut rng = Rng::new(7);
    let mut items = vec![1, 2, 3, 4, 5];
    rng.shuffle(&mut items);
    assert_eq!(items, vec![2, 1, 4, 5, 3]);
}

#[test]
fn letters_and_premiums() {
    assert_eq!(letter_value(b'A'), 1);
    assert_eq!(letter_value(b'Q'), 10);
    assert_eq!(letter_value(b'X'), 8);
    assert_eq!(letter_value(b'?'), 0);
    assert!(is_vowel(b'E'));
    assert!(!is_vowel(b'Y'));
    assert!(matches!(premium_at(0, 0), Some(Premium::Tw)));
    assert!(matches!(premium_at(7, 7), Some(Premium::Dw)));
    assert!(matches!(premium_at(14, 11), Some(Premium::Dl)));
    assert!(premium_at(7, 8).is_none());
    assert!(premium_at(15, 0).is_none());
}

fn ab_board() -> Board {
    let mut board = Board::new();
    board.insert(7, 6, b'A');
    board.insert(7, 7, b'B');
    board
}

#[test]
fn scores_a_placement() {
    let board = ab_board();
    let scored = score_placement(&board, &[Tile { row: 7, col: 8, letter: b'C' }]).unwrap();
    assert_eq!(scored.score, 9);
    assert!(!scored.bingo);
    assert_eq!(scored.words.len(), 1);
    assert_eq!(scored.words[0].word, "ABC");
    assert_eq!(scored.words[0].score, 9);
    // not touching, or on a fixed square: refused
    assert!(score_placement(&board, &[Tile { row: 0, col: 0, letter: b'C' }]).is_none());
    assert!(score_placement(&board, &[Tile { row: 7, col: 7, letter: b'C' }]).is_none());
    assert!(score_placement(&board, &[]).is_none());
}

#[test]
fn one_letter_of_two_bytes_is_a_word() {
    let board = ab_board();
    let scored = score_placement(&board, &[Tile { row: 7, col: 8, letter: 0xC9 }]).unwrap();
    assert_eq!(scored.words.len(), 2);
    assert_eq!(scored.words[0].word, "AB\u{c9}");
    assert_eq!(scored.words[1].word, "\u{c9}");
    assert_eq!(scored.score, 4);
}

#[test]
fn premium_under_new_tile_counts() {
    // A on the double-letter square (7, 3), B beside it on (7, 4).
    let mut board = Board::new();
    board.insert(7, 4, b'B');
    let scored = score_placement(&board, &[Tile { row: 7, col: 3, letter: b'A' }]).unwrap();
    assert_eq!(scored.score, 2 + 3);
}

#[test]
fn dictionary_from_text() {
    let dict = Dictionary::from_text("  KAT\nab\n\nKAT\r\nHOND \n");
    assert_eq!(dict.len(), 3);
    assert!(dict.contains(b"KAT"));
    assert!(dict.contains(b"HOND"));
    assert!(dict.contains(b"ab"));
    assert!(!dict.contains(b"KA"));
    assert!(!dict.contains(b""));
    assert_eq!(dict.words()[0], b"HOND".to_vec());
}

#[test]
fn finds_the_only_move() {
    let board = ab_board();
    let dict = Dictionary::from_text("AB\nABC\nXYZ\n");
    let moves = find_all_moves(&board, b"C", &dict);
    assert_eq!(moves.len(), 1);
    assert_eq!(moves[0].tiles, vec![Tile { row: 7, col: 8, letter: b'C' }]);
    assert_eq!(moves[0].score, 9);
    assert_eq!(moves[0].words.len(), 1);
    assert_eq!(moves[0].words[0].word, "ABC");
    assert!(!moves[0].bingo);
}

#[test]
fn moves_are_listed_once_best_first() {
    let mut board = Board::new();
    for (i, l) in b"KAT".iter().enumerate() {
        board.insert(7, 6 + i as i32, *l);
    }
    let dict = Dictionary::from_text("KAT\nKATER\nKATEN\nTAK\nAKTE\nTE\nET\nAT\nRAT\nTAKEN\n");
    let moves = find_all_moves(&board, b"ENRATEO", &dict);
    assert!(!moves.is_empty());
    for w in moves.windows(2) {
        assert!(w[0].score >= w[1].score);
    }
    for (i, a) in moves.iter().enumerate() {
        for b in &moves[i + 1..] {
            assert_ne!(a.tiles, b.tiles);
        }
        let scored = score_placement(&board, &a.tiles).unwrap();
        assert_eq!(scored.score, a.score);
        for w in &a.words {
            assert!(dict.contains(w.word.as_bytes()));
        }
    }
    assert!(moves.iter().any(|m| m.words.iter().any(|w| w.word == "KATER")));
}

#[test]
fn opening_words_keep_file_order() {
    let dict = Dictionary::from_text("PAUZE\nVLOER\nKAT\n");
    let openings = opening_words("vloer\n kat\npauze\nfiets\nvloer", &dict);
    assert_eq!(openings, vec!["VLOER".to_string(), "PAUZE".to_string(), "VLOER".to_string()]);
}

#[test]
fn small_dictionary_gives_no_puzzle() {
    let dict = Dictionary::from_text("PAUZE\nVLOER\nPA\n");
    let openings = opening_words("pauze\nvloer\n", &dict);
    match daily_puzzle(day(2026, 10, 1), &dict, &openings) {
        Err(PuzzleError::NoPuzzle { seed }) => assert_eq!(seed, 3068585657),
        _ => panic!("expected no puzzle"),
    }
    let e = PuzzleError::NoPuzzle { seed: 3068585657 };
    assert_eq!(e.message(), "no acceptable puzzle found for seed 3068585657 in 100 attempts");
    assert!(matches!(daily_puzzle(i32::MAX, &dict, &openings), Err(PuzzleError::DateOutOfRange)));
}

#[test]
fn racks_have_seven_capitals() {
    let mut rng = Rng::new(3068585657);
    let rack = draw_rack(&mut rng, b"PAUZEVLOER");
    assert_eq!(rack.len(), 7);
    assert!(rack.iter().all(|l| l.is_ascii_uppercase()));
}

#[test]
fn puzzles_are_served_near_today_only() {
    assert!(servable(100, 100));
    assert!(servable(98, 100));
    assert!(servable(102, 100));
    assert!(!servable(103, 100));
    assert!(!servable(97, 100));
    assert!(!servable(i32::MIN, i32::MAX));
}

/// Every word of two and three capitals, with the two opening words.
fn big_dictionary() -> Dictionary {
    let mut text = String::from("PAUZE\nVLOER\n");
    for a in b'A'..=b'Z' {
        for b in b'A'..=b'Z' {
            text.push(a as char);
            text.push(b as char);
            text.push('\n');
            for c in b'A'..=b'Z' {
                text.push(a as char);
                text.push(b as char);
                text.push(c as char);
                text.push('\n');
            }
        }
    }
    Dictionary::from_text(&text)
}

#[test]
fn generates_a_puzzle() {
    let dict = big_dictionary();
    let openings = opening_words("pauze\nvloer\n", &dict);
    let p = match daily_puzzle(day(2026, 10, 1), &dict, &openings) {
        Ok(p) => p,
        Err(e) => panic!("{}", e.message()),
    };
    assert_eq!(p.date, "2026-10-01");
    assert_eq!(p.number, 1);
    assert_eq!(p.seed, 3068585657);
    assert!(p.move_count >= 100);
    assert!(p.max_score >= 30);
    assert_eq!(p.rack.len(), 7);
    assert_eq!(p.placed.len(), 2);
    assert_eq!(p.placed[0].row, 7);
    assert_eq!(p.placed[0].dir, "across");
    assert_eq!(p.placed[1].dir, "down");
    for w in p.valid_words.windows(2) {
        assert!(w[0] < w[1]);
    }
    assert!(p.view.rows >= 9 && p.view.cols >= 8);
    assert!(p.view.top >= 0 && p.view.top + p.view.rows <= 15);
    assert!(p.view.left >= 0 && p.view.left + p.view.cols <= 15);
    let again = daily_puzzle(day(2026, 10, 1), &dict, &openings).ok().unwrap();
    assert_eq!(again.rack, p.rack);
    assert_eq!(again.valid_words, p.valid_words);
    assert_eq!(again.move_count, p.move_count);
}

#[test]
fn puzzle_requests() {
    let today = day(2026, 10, 1);
    assert_eq!(puzzle_request("2026-10-03", today), Ok(day(2026, 10, 3)));
    assert_eq!(puzzle_request("2026-09-29", today), Ok(day(2026, 9, 29)));
    assert_eq!(puzzle_request("2026-10-04", today), Err(RequestError::OutOfRange));
    assert_eq!(puzzle_request("yesterday", today), Err(RequestError::InvalidDate));
    assert_eq!(RequestError::InvalidDate.message(), "invalid date");
    assert_eq!(RequestError::OutOfRange.message(), "date out of range");
}
